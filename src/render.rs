//! Decimal text for keys, and the text of a sequence of keys.
use vstd::prelude::*;

verus! {

/// The character of the decimal digit `d`.
pub open spec fn digit_char(d: nat) -> char {
    ((48 + d) as u32) as char
}

/// The decimal digits of `n`, most significant first, without leading zeros.
pub open spec fn digits(n: nat) -> Seq<char>
    decreases n,
{
    if n < 10 {
        seq![digit_char(n)]
    } else {
        digits(n / 10).push(digit_char(n % 10))
    }
}

/// The decimal text of `v`, with a leading `-` when it is negative.
pub open spec fn decimal(v: int) -> Seq<char> {
    if v < 0 {
        seq!['-'] + digits((-v) as nat)
    } else {
        digits(v as nat)
    }
}

/// Relies on `String::push`: it appends one character at the end.
#[verifier::external_body]
pub(crate) fn push_char(s: &mut String, c: char)
    ensures
        final(s)@ == old(s)@.push(c),
{
    s.push(c)
}

/// Relies on `String::pop`: it removes and returns the last character, and
/// returns `None` on an empty string.
#[verifier::external_body]
pub(crate) fn pop_char(s: &mut String) -> (r: Option<char>)
    ensures
        old(s)@.len() == 0 ==> r.is_none() && final(s)@ == old(s)@,
        old(s)@.len() > 0 ==> r == Some(old(s)@.last()) && final(s)@ == old(s)@.drop_last(),
{
    s.pop()
}

/// Appends the decimal digits of `n`.
fn push_digits(s: &mut String, n: u32)
    ensures
        final(s)@ == old(s)@ + digits(n as nat),
    decreases n,
{
    if n >= 10 {
        push_digits(s, n / 10);
    }
    let d: u8 = (n % 10) as u8;
    let c: char = (48u8 + d) as char;
    push_char(s, c);
}

/// Appends the decimal text of `v`.
pub fn push_decimal(s: &mut String, v: i32)
    ensures
        final(s)@ == old(s)@ + decimal(v as int),
{
    if v < 0 {
        push_char(s, '-');
        let m: u32 = (0i64 - v as i64) as u32;
        push_digits(s, m);
        assert(final(s)@ =~= old(s)@ + decimal(v as int));
    } else {
        push_digits(s, v as u32);
    }
}

/// Each key's decimal text followed by one space, in order.
pub open spec fn spaced(s: Seq<i32>) -> Seq<char>
    decreases s.len(),
{
    if s.len() == 0 {
        Seq::empty()
    } else {
        spaced(s.drop_last()) + decimal(s.last() as int) + seq![' ']
    }
}

/// The keys' decimal texts joined by single spaces: no space before the
/// first or after the last.
pub open spec fn joined(s: Seq<i32>) -> Seq<char>
    decreases s.len(),
{
    if s.len() == 0 {
        Seq::empty()
    } else if s.len() == 1 {
        decimal(s[0] as int)
    } else {
        joined(s.drop_last()) + seq![' '] + decimal(s.last() as int)
    }
}

/// The spaced text of two sequences one after the other is the two texts one
/// after the other.
pub proof fn lemma_spaced_concat(a: Seq<i32>, b: Seq<i32>)
    ensures
        spaced(a + b) == spaced(a) + spaced(b),
    decreases b.len(),
{
    if b.len() == 0 {
        assert(a + b =~= a);
        assert(spaced(a) + spaced(b) =~= spaced(a));
    } else {
        lemma_spaced_concat(a, b.drop_last());
        assert((a + b).drop_last() =~= a + b.drop_last());
        assert(spaced(a + b) =~= spaced(a) + spaced(b));
    }
}

/// The spaced text of one key is its decimal text and one space.
pub proof fn lemma_spaced_single(v: i32)
    ensures
        spaced(seq![v]) == decimal(v as int) + seq![' '],
{
    let one = seq![v];
    assert(one.drop_last() =~= Seq::<i32>::empty());
    assert(one.last() == v);
    assert(spaced(one.drop_last()) == Seq::<char>::empty());
    assert(spaced(one) =~= decimal(v as int) + seq![' ']);
}

/// The spaced text of a non-empty sequence is its joined text and one space.
pub proof fn lemma_spaced_is_joined(s: Seq<i32>)
    requires
        s.len() > 0,
    ensures
        spaced(s) == joined(s) + seq![' '],
    decreases s.len(),
{
    if s.len() == 1 {
        assert(s.drop_last() =~= Seq::<i32>::empty());
        assert(spaced(s.drop_last()) == Seq::<char>::empty());
        assert(spaced(s) =~= Seq::<char>::empty() + decimal(s[0] as int) + seq![' ']);
        assert(spaced(s) =~= joined(s) + seq![' ']);
    } else {
        lemma_spaced_is_joined(s.drop_last());
        assert(spaced(s) =~= joined(s) + seq![' ']);
    }
}

} // verus!
