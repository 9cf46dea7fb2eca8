//! Plain text: decimal numbers and lists, written into a `String`.
use vstd::prelude::*;

verus! {

/// A single decimal digit.
pub open spec fn digit(d: nat) -> Seq<char> {
    if d == 0 {
        "0"@
    } else if d == 1 {
        "1"@
    } else if d == 2 {
        "2"@
    } else if d == 3 {
        "3"@
    } else if d == 4 {
        "4"@
    } else if d == 5 {
        "5"@
    } else if d == 6 {
        "6"@
    } else if d == 7 {
        "7"@
    } else if d == 8 {
        "8"@
    } else {
        "9"@
    }
}

/// `n` in decimal, without leading zeros.
pub open spec fn decimal(n: nat) -> Seq<char>
    decreases n,
{
    if n < 10 {
        digit(n)
    } else {
        decimal(n / 10) + digit(n % 10)
    }
}

/// Different digits look different.
proof fn lemma_digit(a: nat, b: nat)
    requires
        a < 10,
        b < 10,
    ensures
        digit(a).len() == 1,
        digit(a) == digit(b) ==> a == b,
{
    reveal_strlit("0");
    reveal_strlit("1");
    reveal_strlit("2");
    reveal_strlit("3");
    reveal_strlit("4");
    reveal_strlit("5");
    reveal_strlit("6");
    reveal_strlit("7");
    reveal_strlit("8");
    reveal_strlit("9");
    assert(digit(a)[0] as int == 48 + a);
    assert(digit(b)[0] as int == 48 + b);
}

/// Different numbers look different in decimal.
pub proof fn lemma_decimal_injective(a: nat, b: nat)
    ensures
        decimal(a) == decimal(b) ==> a == b,
        decimal(a).len() >= 1,
    decreases a,
{
    lemma_digit(a % 10, b % 10);
    lemma_digit(b % 10, a % 10);
    if a < 10 {
        if b >= 10 {
            lemma_decimal_nonempty(b / 10);
            assert(decimal(b).len() >= 2);
        }
    } else {
        lemma_decimal_nonempty(a / 10);
        if b < 10 {
            assert(decimal(a).len() >= 2);
        } else {
            lemma_decimal_injective(a / 10, b / 10);
            if decimal(a) == decimal(b) {
                assert(decimal(a).last() == digit(a % 10)[0]);
                assert(decimal(b).last() == digit(b % 10)[0]);
                assert(digit(a % 10) =~= digit(b % 10));
                assert(decimal(a).drop_last() =~= decimal(a / 10));
                assert(decimal(b).drop_last() =~= decimal(b / 10));
            }
        }
    }
}

proof fn lemma_decimal_nonempty(n: nat)
    ensures
        decimal(n).len() >= 1,
    decreases n,
{
    lemma_digit(n % 10, 0);
    if n >= 10 {
        lemma_decimal_nonempty(n / 10);
    }
}

/// What digits stand for, the last one for the ones.
pub open spec fn reading(s: Seq<char>) -> int
    decreases s.len(),
{
    if s.len() == 0 {
        0
    } else {
        10 * reading(s.drop_last()) + (s.last() as int - 48)
    }
}

/// A number is written in digits that stand for it, and starts with a zero only
/// if it is zero.
pub proof fn law_numbers_read_back(n: nat)
    ensures
        reading(decimal(n)) == n,
        decimal(n).len() > 0,
        forall|i: int| 0 <= i < decimal(n).len() ==> 48 <= (#[trigger] decimal(n)[i]) as int <= 57,
        n > 0 ==> decimal(n)[0] as int != 48,
    decreases n,
{
    reveal_strlit("0");
    reveal_strlit("1");
    reveal_strlit("2");
    reveal_strlit("3");
    reveal_strlit("4");
    reveal_strlit("5");
    reveal_strlit("6");
    reveal_strlit("7");
    reveal_strlit("8");
    reveal_strlit("9");
    let d = n % 10;
    assert(digit(d).len() == 1 && digit(d)[0] as int == 48 + d);
    if n < 10 {
        reveal_with_fuel(reading, 2);
        assert(decimal(n).last() == digit(d)[0]);
        assert(decimal(n).drop_last() =~= Seq::<char>::empty());
    } else {
        law_numbers_read_back(n / 10);
        assert(decimal(n).drop_last() =~= decimal(n / 10));
        assert(decimal(n).last() == digit(d)[0]);
    }
}

fn push_digit(out: &mut String, d: u64)
    requires
        d < 10,
    ensures
        final(out)@ == old(out)@ + digit(d as nat),
{
    if d == 0 {
        out.append("0")
    } else if d == 1 {
        out.append("1")
    } else if d == 2 {
        out.append("2")
    } else if d == 3 {
        out.append("3")
    } else if d == 4 {
        out.append("4")
    } else if d == 5 {
        out.append("5")
    } else if d == 6 {
        out.append("6")
    } else if d == 7 {
        out.append("7")
    } else if d == 8 {
        out.append("8")
    } else {
        out.append("9")
    }
}

/// Append `n` in decimal.
pub fn push_decimal(out: &mut String, n: u64)
    ensures
        final(out)@ == old(out)@ + decimal(n as nat),
    decreases n,
{
    if n < 10 {
        push_digit(out, n);
    } else {
        push_decimal(out, n / 10);
        push_digit(out, n % 10);
        assert(out@ =~= old(out)@ + decimal(n as nat));
    }
}

/// The first `n` of `ids`, separated by commas.
pub open spec fn id_list(ids: Seq<u32>, n: nat) -> Seq<char>
    decreases n,
{
    if n == 0 {
        Seq::empty()
    } else {
        id_list(ids, (n - 1) as nat) + (if n > 1 {
            ", "@
        } else {
            Seq::empty()
        }) + decimal(ids[n - 1] as nat)
    }
}

/// Append `ids`, separated by commas.
pub fn push_id_list(out: &mut String, ids: &[u32])
    ensures
        final(out)@ == old(out)@ + id_list(ids@, ids@.len()),
{
    let mut i: usize = 0;
    assert(out@ =~= old(out)@ + id_list(ids@, 0));
    while i < ids.len()
        invariant
            i <= ids.len(),
            out@ == old(out)@ + id_list(ids@, i as nat),
        decreases ids.len() - i,
    {
        if i > 0 {
            out.append(", ");
        }
        push_decimal(out, ids[i] as u64);
        i = i + 1;
        assert(out@ =~= old(out)@ + id_list(ids@, i as nat));
    }
}

/// A set of ids: braces around the members in ascending order.
pub open spec fn id_set(s: Set<u32>) -> Seq<char> {
    let ids = crate::order::in_order(s);
    "{"@ + id_list(ids, ids.len()) + "}"@
}

/// Append a set of ids.
pub fn push_id_set(out: &mut String, s: &std::collections::BTreeSet<u32>)
    ensures
        final(out)@ == old(out)@ + id_set(s@),
{
    let ids = crate::order::ids_in_order(s);
    out.append("{");
    push_id_list(out, ids.as_slice());
    out.append("}");
    assert(out@ =~= old(out)@ + id_set(s@));
}

/// A list of ids: brackets around the members.
pub open spec fn id_array(ids: Seq<u32>) -> Seq<char> {
    "["@ + id_list(ids, ids.len()) + "]"@
}

/// Append a list of ids.
pub fn push_id_array(out: &mut String, ids: &[u32])
    ensures
        final(out)@ == old(out)@ + id_array(ids@),
{
    out.append("[");
    push_id_list(out, ids);
    out.append("]");
    assert(out@ =~= old(out)@ + id_array(ids@));
}

/// How `{:?}` shows a string: in quotes, with what does not print escaped.
pub uninterp spec fn shown(s: Seq<char>) -> Seq<char>;

/// `format!("{:?}", s)` of the standard library. Trusted: the result is a
/// function of the string alone, named `shown`; which characters are escaped,
/// and how, is left unsaid.
#[verifier::external_body]
pub(crate) fn show_text(s: &str) -> (r: String)
    ensures
        r@ == shown(s@),
{
    format!("{:?}", s)
}

/// How `{:?}` shows an optional string.
pub open spec fn shown_option(s: Option<Seq<char>>) -> Seq<char> {
    match s {
        None => "None"@,
        Some(s) => "Some("@ + shown(s) + ")"@,
    }
}

/// Append an optional string the way `{:?}` shows it.
pub(crate) fn push_shown_option(out: &mut String, s: &Option<String>)
    ensures
        final(out)@ == old(out)@ + shown_option(crate::json::text_view(*s)),
{
    match s {
        None => out.append("None"),
        Some(s) => {
            out.append("Some(");
            out.append(show_text(s.as_str()).as_str());
            out.append(")");
        },
    }
    assert(out@ =~= old(out)@ + shown_option(crate::json::text_view(*s)));
}

} // verus!
