//! What a digest tells apart.
//!
//! A digest is as good as what it misses. This one misses no single byte: inputs
//! of one length that differ in one place have different digests, and so have
//! inputs that are the same from two different starting points.
use crate::log::{EntryView, PayloadView};
use vstd::prelude::*;

verus! {

/// The factor that takes a step back.
const BACK: u64 = 0xCE96_5057_AFF6_957B;

/// How often the two factors together go round.
const TURNS: u64 = 0x00CE_9650_590F;

/// No two states come together on one byte, and no two bytes on one state.
pub proof fn law_steps_keep_apart(g: u64, h: u64, a: u8, b: u8)
    ensures
        g != h ==> crate::invariants::fnv_step(g, a) != crate::invariants::fnv_step(h, a),
        a != b ==> crate::invariants::fnv_step(g, a) != crate::invariants::fnv_step(g, b),
{
    lemma_back(g ^ a as u64);
    lemma_back(h ^ a as u64);
    lemma_back(g ^ b as u64);
    let x = a as u64;
    let y = b as u64;
    assert(g ^ x == h ^ x ==> g == h) by (bit_vector);
    assert(g ^ x == g ^ y ==> x == y) by (bit_vector);
}

proof fn lemma_back(x: u64)
    ensures
        x.wrapping_mul(crate::invariants::FNV_PRIME).wrapping_mul(BACK) == x,
{
    crate::rand::lemma_factor_undone(x, crate::invariants::FNV_PRIME, BACK, TURNS as int);
}

/// The same bytes from two different states end in two different states.
pub proof fn law_bytes_keep_apart(g: u64, h: u64, bytes: Seq<u8>, n: int)
    requires
        g != h,
    ensures
        crate::invariants::fnv_prefix(g, bytes, n) != crate::invariants::fnv_prefix(h, bytes, n),
    decreases n,
{
    if n > 0 {
        law_bytes_keep_apart(g, h, bytes, n - 1);
        law_steps_keep_apart(
            crate::invariants::fnv_prefix(g, bytes, n - 1),
            crate::invariants::fnv_prefix(h, bytes, n - 1),
            bytes[n - 1],
            bytes[n - 1],
        );
    }
}

/// One byte more or less at the same place makes all the difference.
pub proof fn law_one_byte_shows(hash: u64, a: Seq<u8>, b: Seq<u8>, i: int)
    requires
        a.len() == b.len(),
        0 <= i < a.len(),
        a[i] != b[i],
        forall|k: int| 0 <= k < a.len() && k != i ==> a[k] == b[k],
    ensures
        crate::invariants::fnv_of(hash, a) != crate::invariants::fnv_of(hash, b),
{
    lemma_one_byte(hash, a, b, i, a.len() as int);
}

proof fn lemma_one_byte(hash: u64, a: Seq<u8>, b: Seq<u8>, i: int, n: int)
    requires
        a.len() == b.len(),
        0 <= i < a.len(),
        0 <= n <= a.len(),
        a[i] != b[i],
        forall|k: int| 0 <= k < a.len() && k != i ==> a[k] == b[k],
    ensures
        n <= i ==> crate::invariants::fnv_prefix(hash, a, n) == crate::invariants::fnv_prefix(
            hash,
            b,
            n,
        ),
        n > i ==> crate::invariants::fnv_prefix(hash, a, n) != crate::invariants::fnv_prefix(
            hash,
            b,
            n,
        ),
    decreases n,
{
    if n > 0 {
        lemma_one_byte(hash, a, b, i, n - 1);
        law_steps_keep_apart(
            crate::invariants::fnv_prefix(hash, a, n - 1),
            crate::invariants::fnv_prefix(hash, b, n - 1),
            a[n - 1],
            b[n - 1],
        );
        if n - 1 != i {
            assert(a[n - 1] == b[n - 1]);
        }
    }
}

/// The same number from two different states, and numbers that differ in their
/// lowest byte from one state, end apart.
pub proof fn law_numbers_keep_apart(g: u64, h: u64, x: u64, y: u64, n: nat)
    ensures
        g != h ==> crate::invariants::fnv_number(g, x, n) != crate::invariants::fnv_number(h, x, n),
        n > 0 && x / 256 == y / 256 && x != y ==> crate::invariants::fnv_number(g, x, n)
            != crate::invariants::fnv_number(g, y, n),
    decreases n,
{
    if n > 0 {
        let a = (x % 256) as u8;
        let b = (y % 256) as u8;
        let m = (n - 1) as nat;
        law_steps_keep_apart(g, h, a, b);
        law_numbers_keep_apart(
            crate::invariants::fnv_step(g, a),
            crate::invariants::fnv_step(h, a),
            x / 256,
            x / 256,
            m,
        );
        law_numbers_keep_apart(
            crate::invariants::fnv_step(g, a),
            crate::invariants::fnv_step(g, b),
            x / 256,
            x / 256,
            m,
        );
    }
}

/// Entries of one client's request that hold commands of one length differing in
/// one byte are told apart; so are an empty command and no command; so are the
/// requests of clients whose numbers differ in the lowest byte, and a client's
/// requests whose numbers do. Where and in which term an entry stands plays no
/// part.
pub proof fn law_digests_tell_entries_apart(e: EntryView, f: EntryView, i: int)
    ensures
        e.payload == f.payload && e.client == f.client ==> crate::invariants::digest_of(e)
            == crate::invariants::digest_of(f),
        e.client == f.client ==> (e.payload matches PayloadView::Command(a) ==> f.payload matches
            PayloadView::Command(b) ==> a.len() == b.len() && 0 <= i < a.len() && a[i] != b[i] && (
        forall|k: int| 0 <= k < a.len() && k != i ==> a[k] == b[k])
            ==> crate::invariants::digest_of(e) != crate::invariants::digest_of(f)),
        e.client == f.client && e.payload is Noop ==> (f.payload matches PayloadView::Command(b)
            ==> b.len() == 0 ==> crate::invariants::digest_of(e) != crate::invariants::digest_of(
            f,
        )),
        e.payload == f.payload ==> (e.client matches Some(a) ==> f.client matches Some(b) ==> (a.0
            == b.0 && a.1 != b.1 && a.1 / 256 == b.1 / 256) || (a.1 == b.1 && a.0 != b.0 && a.0
            / 256 == b.0 / 256) ==> crate::invariants::digest_of(e)
            != crate::invariants::digest_of(f)),
{
    let start = crate::invariants::FNV_OFFSET;
    law_steps_keep_apart(start, start, 0, 1);
    let body_e = lemma_body(e);
    let body_f = lemma_body(f);
    if let PayloadView::Command(a) = e.payload {
        if let PayloadView::Command(b) = f.payload {
            if a.len() == b.len() && 0 <= i < a.len() && a[i] != b[i] && (forall|k: int|
                0 <= k < a.len() && k != i ==> a[k] == b[k]) {
                law_one_byte_shows(crate::invariants::fnv_step(start, 1), a, b, i);
                assert(body_e != body_f);
            }
        }
    }
    if let Some((c, s)) = e.client {
        if let Some((d, t)) = f.client {
            let x = crate::invariants::fnv_number(body_e, c as u64, 4);
            let y = crate::invariants::fnv_number(body_f, c as u64, 4);
            law_numbers_keep_apart(body_e, body_f, c as u64, c as u64, 4);
            law_numbers_keep_apart(x, y, s, t, 8);
            law_numbers_keep_apart(body_e, body_f, c as u64, d as u64, 4);
            let z = crate::invariants::fnv_number(body_e, d as u64, 4);
            law_numbers_keep_apart(x, z, s, t, 8);
            assert(c / 256 == d / 256 ==> (c as u64) / 256 == (d as u64) / 256);
        }
    }
}

/// Traces whose texts are of one length and differ in one byte have different
/// digests.
pub proof fn law_digests_tell_traces_apart(
    a: crate::trace::TraceView,
    b: crate::trace::TraceView,
    i: int,
)
    requires
        a.json().bytes().len() == b.json().bytes().len(),
        0 <= i < a.json().bytes().len(),
        a.json().bytes()[i] != b.json().bytes()[i],
        forall|k: int|
            0 <= k < a.json().bytes().len() && k != i ==> a.json().bytes()[k]
                == b.json().bytes()[k],
    ensures
        a.digest() != b.digest(),
{
    law_one_byte_shows(0xcbf2_9ce4_8422_2325, a.json().bytes(), b.json().bytes(), i);
}

proof fn lemma_body(e: EntryView) -> (body: u64)
    ensures
        body == match e.payload {
            PayloadView::Noop => crate::invariants::fnv_step(crate::invariants::FNV_OFFSET, 0),
            PayloadView::Command(bytes) => crate::invariants::fnv_of(
                crate::invariants::fnv_step(crate::invariants::FNV_OFFSET, 1),
                bytes,
            ),
            PayloadView::Config(cfg) => crate::invariants::fnv_of(
                crate::invariants::fnv_step(crate::invariants::FNV_OFFSET, 2),
                vstd::utf8::encode_utf8(cfg.describe()),
            ),
        },
        crate::invariants::digest_of(e) == match e.client {
            Some((client, seq)) => crate::invariants::fnv_number(
                crate::invariants::fnv_number(body, client as u64, 4),
                seq,
                8,
            ),
            None => body,
        },
{
    match e.payload {
        PayloadView::Noop => crate::invariants::fnv_step(crate::invariants::FNV_OFFSET, 0),
        PayloadView::Command(bytes) => crate::invariants::fnv_of(
            crate::invariants::fnv_step(crate::invariants::FNV_OFFSET, 1),
            bytes,
        ),
        PayloadView::Config(cfg) => crate::invariants::fnv_of(
            crate::invariants::fnv_step(crate::invariants::FNV_OFFSET, 2),
            vstd::utf8::encode_utf8(cfg.describe()),
        ),
    }
}

} // verus!
