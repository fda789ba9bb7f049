//! Building message text: decimal numbers and bracketed lists, written as
//! `Display` and `Debug` write them.
use vstd::prelude::*;
use crate::text::{chars_of, decimal_text};

verus! {

/// A signed integer in decimal, with a leading `-` when negative.
pub open spec fn signed_text(x: int) -> Seq<char> {
    if x < 0 {
        seq!['-'] + decimal_text((-x) as nat)
    } else {
        decimal_text(x as nat)
    }
}

/// The items of `s`, comma-separated.
pub open spec fn items_text(s: Seq<int>) -> Seq<char>
    decreases s.len(),
{
    if s.len() == 0 {
        Seq::empty()
    } else if s.len() == 1 {
        signed_text(s[0])
    } else {
        items_text(s.drop_last()) + ", "@ + signed_text(s.last())
    }
}

/// A list of integers in brackets, as `Debug` writes a `Vec` of integers.
pub open spec fn list_text(s: Seq<int>) -> Seq<char> {
    "["@ + items_text(s) + "]"@
}

/// The entries of `s` as integers.
pub open spec fn usize_ints(s: Seq<usize>) -> Seq<int> {
    Seq::new(s.len(), |i: int| s[i] as int)
}

/// The entries of `s` as integers.
pub open spec fn isize_ints(s: Seq<isize>) -> Seq<int> {
    Seq::new(s.len(), |i: int| s[i] as int)
}

/// `String: FromIterator<&char>`: a string holding the characters in order.
#[verifier::external_body]
pub(crate) fn string_from_chars(chars: &Vec<char>) -> (r: String)
    ensures
        r@ == chars@,
{
    chars.iter().collect()
}

/// Append the characters of `s`.
pub(crate) fn push_str(out: &mut Vec<char>, s: &str)
    ensures
        final(out)@ == old(out)@ + s@,
{
    let cs = chars_of(s);
    let mut i: usize = 0;
    while i < cs.len()
        invariant
            i <= cs.len(),
            cs@ == s@,
            out@ == old(out)@ + s@.take(i as int),
        decreases cs.len() - i,
    {
        out.push(cs[i]);
        i = i + 1;
        assert(out@ =~= old(out)@ + s@.take(i as int));
    }
    assert(s@.take(i as int) =~= s@);
}

/// Append `n` in decimal.
pub(crate) fn push_decimal(out: &mut Vec<char>, n: u128)
    ensures
        final(out)@ == old(out)@ + decimal_text(n as nat),
    decreases n,
{
    if n >= 10 {
        push_decimal(out, n / 10);
    }
    let d = (n % 10) as u8;
    out.push((48u8 + d) as char);
    proof {
        if n >= 10 {
            assert(decimal_text(n as nat) == decimal_text((n / 10) as nat).push((48 + n % 10) as char));
        }
        assert(out@ =~= old(out)@ + decimal_text(n as nat));
    }
}

/// Append `x` in decimal, with a leading `-` when negative.
pub(crate) fn push_signed(out: &mut Vec<char>, x: i128)
    requires
        x > i128::MIN,
    ensures
        final(out)@ == old(out)@ + signed_text(x as int),
{
    if x < 0 {
        out.push('-');
        push_decimal(out, (-x) as u128);
        assert(out@ =~= old(out)@ + signed_text(x as int));
    } else {
        push_decimal(out, x as u128);
    }
}

fn push_list(out: &mut Vec<char>, s: &Vec<i128>)
    requires
        forall|i: int| 0 <= i < s.len() ==> s@[i] > i128::MIN,
    ensures
        final(out)@ == old(out)@ + list_text(Seq::new(s@.len(), |i: int| s@[i] as int)),
{
    let ghost si = Seq::new(s@.len(), |i: int| s@[i] as int);
    out.push('[');
    proof {
        reveal_strlit("[");
        assert(si.take(0) =~= Seq::<int>::empty());
        assert(items_text(si.take(0)) =~= Seq::<char>::empty());
        assert(out@ =~= old(out)@ + "["@ + items_text(si.take(0)));
    }
    let mut i: usize = 0;
    while i < s.len()
        invariant
            i <= s.len(),
            si == Seq::new(s@.len(), |i: int| s@[i] as int),
            forall|k: int| 0 <= k < s.len() ==> s@[k] > i128::MIN,
            out@ == old(out)@ + "["@ + items_text(si.take(i as int)),
        decreases s.len() - i,
    {
        let ghost before = out@;
        if i > 0 {
            push_str(out, ", ");
        }
        push_signed(out, s[i]);
        proof {
            let t = si.take(i + 1);
            assert(t.drop_last() =~= si.take(i as int));
            assert(t.last() == s@[i as int] as int);
            if i == 0 {
                assert(si.take(0) =~= Seq::<int>::empty());
                assert(items_text(si.take(0)) =~= Seq::<char>::empty());
                assert(items_text(t) == signed_text(t[0]));
            }
            assert(out@ =~= old(out)@ + "["@ + items_text(t));
        }
        i = i + 1;
    }
    assert(si.take(i as int) =~= si);
    push_str(out, "]");
    assert(out@ =~= old(out)@ + list_text(si));
}

/// Append a list of unsigned integers as `Debug` writes it.
pub(crate) fn push_usize_list(out: &mut Vec<char>, s: &[usize])
    ensures
        final(out)@ == old(out)@ + list_text(usize_ints(s@)),
{
    let mut v: Vec<i128> = Vec::new();
    let mut i: usize = 0;
    while i < s.len()
        invariant
            i <= s.len(),
            v@.len() == i,
            forall|k: int| 0 <= k < i ==> v@[k] == s@[k] as i128,
        decreases s.len() - i,
    {
        v.push(s[i] as i128);
        i = i + 1;
    }
    assert(Seq::new(v@.len(), |k: int| v@[k] as int) =~= usize_ints(s@));
    push_list(out, &v);
}

/// Append a list of signed integers as `Debug` writes it.
pub(crate) fn push_isize_list(out: &mut Vec<char>, s: &[isize])
    ensures
        final(out)@ == old(out)@ + list_text(isize_ints(s@)),
{
    let mut v: Vec<i128> = Vec::new();
    let mut i: usize = 0;
    while i < s.len()
        invariant
            i <= s.len(),
            v@.len() == i,
            forall|k: int| 0 <= k < i ==> v@[k] == s@[k] as i128,
        decreases s.len() - i,
    {
        v.push(s[i] as i128);
        i = i + 1;
    }
    assert(Seq::new(v@.len(), |k: int| v@[k] as int) =~= isize_ints(s@));
    push_list(out, &v);
}

} // verus!
