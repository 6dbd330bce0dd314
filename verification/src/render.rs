//! Decimal text of numbers.

use crate::decimal::{digits_of, digits_of_u64, lemma_digits_of};
use vstd::prelude::*;

verus! {

/// The character of the decimal digit `d`.
pub open spec fn digit_char(d: u8) -> char {
    (d + 48) as char
}

/// The characters of the decimal digits `ds`.
pub open spec fn digit_chars(ds: Seq<u8>) -> Seq<char> {
    Seq::new(ds.len(), |i: int| digit_char(ds[i]))
}

/// `n` zeros.
pub open spec fn zeros(n: nat) -> Seq<char> {
    Seq::new(n, |i: int| '0')
}

/// The decimal text of the natural number `n`.
pub open spec fn render_natural(n: nat) -> Seq<char> {
    digit_chars(digits_of(n))
}

/// The decimal text of the integer `v`: a minus sign where it is negative,
/// then its digits.
pub open spec fn render_integer(v: int) -> Seq<char> {
    if v < 0 {
        seq!['-'] + render_natural((-v) as nat)
    } else {
        render_natural(v as nat)
    }
}

/// The character of the decimal digit `d`.
pub fn digit_char_of(d: u8) -> (c: char)
    requires
        d <= 9,
    ensures
        c == digit_char(d),
{
    (d + 48) as char
}

/// Appends the characters of the decimal digits `ds[from..to]` to `out`.
pub fn push_digits(out: &mut String, ds: &Vec<u8>, from: usize, to: usize)
    requires
        from <= to <= ds.len(),
        forall|i: int| from <= i < to ==> #[trigger] ds[i] <= 9,
    ensures
        final(out)@ == old(out)@ + digit_chars(ds@.subrange(from as int, to as int)),
{
    let ghost before = out@;
    let mut i: usize = from;
    while i < to
        invariant
            from <= i <= to <= ds.len(),
            forall|j: int| from <= j < to ==> #[trigger] ds[j] <= 9,
            out@ =~= before + digit_chars(ds@.subrange(from as int, i as int)),
        decreases to - i,
    {
        out.push(digit_char_of(ds[i]));
        i = i + 1;
    }
}

/// Appends `count` zeros to `out`.
pub fn push_zeros(out: &mut String, count: usize)
    ensures
        final(out)@ == old(out)@ + zeros(count as nat),
{
    let ghost before = out@;
    let mut i: usize = 0;
    while i < count
        invariant
            i <= count,
            out@ =~= before + zeros(i as nat),
        decreases count - i,
    {
        out.push('0');
        i = i + 1;
    }
}

/// Appends the decimal text of `v` to `out`.
pub fn push_integer(out: &mut String, v: i64)
    ensures
        final(out)@ == old(out)@ + render_integer(v as int),
{
    let ghost before = out@;
    let magnitude: u64 = if v < 0 {
        ((-(v + 1)) as u64) + 1
    } else {
        v as u64
    };
    if v < 0 {
        out.push('-');
    }
    let ds = digits_of_u64(magnitude);
    proof {
        lemma_digits_of(magnitude as nat);
        assert(ds@.subrange(0, ds.len() as int) =~= ds@);
    }
    push_digits(out, &ds, 0, ds.len());
    assert(out@ =~= before + render_integer(v as int));
}

} // verus!
