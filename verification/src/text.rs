//! The ASCII labels shown beside the grid.

use vstd::prelude::*;

use crate::walk::{seq_sum, lemma_seq_sum_bound};

verus! {

/// The ASCII code of the decimal digit `d`.
pub open spec fn ascii_digit(d: int) -> u8 {
    (d + '0' as u8) as u8
}

/// The decimal digits of `n`, most significant first, without leading zeros.
pub open spec fn decimal(n: nat) -> Seq<u8>
    decreases n,
{
    if n < 10 {
        seq![ascii_digit(n as int)]
    } else {
        decimal(n / 10).push(ascii_digit((n % 10) as int))
    }
}

/// `"Max : "`
pub open spec fn max_prefix() -> Seq<u8> {
    seq!['M' as u8, 'a' as u8, 'x' as u8, ' ' as u8, ':' as u8, ' ' as u8]
}

/// `" ->"`
pub open spec fn arrow_suffix() -> Seq<u8> {
    seq![' ' as u8, '-' as u8, '>' as u8]
}

/// `" + "`
pub open spec fn plus_separator() -> Seq<u8> {
    seq![' ' as u8, '+' as u8, ' ' as u8]
}

/// `"= "`
pub open spec fn equals_separator() -> Seq<u8> {
    seq!['=' as u8, ' ' as u8]
}

/// `"Final Maximum : ?"`
pub open spec fn final_prefix() -> Seq<u8> {
    seq![
        'F' as u8, 'i' as u8, 'n' as u8, 'a' as u8, 'l' as u8, ' ' as u8,
        'M' as u8, 'a' as u8, 'x' as u8, 'i' as u8, 'm' as u8, 'u' as u8, 'm' as u8,
        ' ' as u8, ':' as u8, ' ' as u8, '?' as u8,
    ]
}

/// The label of a row's best sum: `"Max : <m> ->"`.
pub open spec fn max_label_of(m: nat) -> Seq<u8> {
    max_prefix() + decimal(m) + arrow_suffix()
}

/// The label of the overall best sum: `"Final Maximum : ?<m>"`.
pub open spec fn final_label_of(m: nat) -> Seq<u8> {
    final_prefix() + decimal(m)
}

/// Each number followed by `" + "`.
pub open spec fn terms(s: Seq<u8>) -> Seq<u8>
    decreases s.len(),
{
    if s.len() == 0 {
        Seq::empty()
    } else {
        terms(s.drop_last()) + decimal(s.last() as nat) + plus_separator()
    }
}

/// The label of the walk's numbers: each followed by `" + "`; when the walk
/// spans all `cols` columns, the last `+` is taken out and `"= "` and the
/// sum follow.
pub open spec fn sum_label_of(sums: Seq<u8>, cols: int) -> Seq<u8> {
    let t = terms(sums);
    if sums.len() == cols {
        t.remove(t.len() - 2) + equals_separator() + decimal(seq_sum(sums) as nat)
    } else {
        t
    }
}

/// `terms` holds at least three bytes per number.
pub proof fn lemma_terms_len(s: Seq<u8>)
    ensures
        terms(s).len() >= 3 * s.len(),
    decreases s.len(),
{
    if s.len() > 0 {
        lemma_terms_len(s.drop_last());
    }
}

/// Appends the decimal digits of `n`.
pub fn push_decimal(v: &mut Vec<u8>, n: u64)
    ensures
        final(v)@ == old(v)@ + decimal(n as nat),
    decreases n,
{
    if n >= 10 {
        push_decimal(v, n / 10);
    }
    v.push((n % 10) as u8 + '0' as u8);
    assert(decimal(n as nat) == if n < 10 {
        seq![ascii_digit(n as int)]
    } else {
        decimal((n / 10) as nat).push(ascii_digit((n % 10) as int))
    });
}

/// Appends every byte of `s`.
fn push_all(v: &mut Vec<u8>, s: &Vec<u8>)
    ensures
        final(v)@ == old(v)@ + s@,
{
    let mut i: usize = 0;
    while i < s.len()
        invariant
            0 <= i <= s@.len(),
            v@ == old(v)@ + s@.take(i as int),
        decreases s@.len() - i,
    {
        v.push(s[i]);
        i += 1;
    }
}

/// `"Max : <m> ->"`
pub fn max_label(m: u16) -> (label: Vec<u8>)
    ensures
        label@ == max_label_of(m as nat),
{
    let mut v: Vec<u8> = Vec::new();
    let prefix: Vec<u8> = vec!['M' as u8, 'a' as u8, 'x' as u8, ' ' as u8, ':' as u8, ' ' as u8];
    push_all(&mut v, &prefix);
    push_decimal(&mut v, m as u64);
    let suffix: Vec<u8> = vec![' ' as u8, '-' as u8, '>' as u8];
    push_all(&mut v, &suffix);
    v
}

/// `"Final Maximum : ?<m>"`
pub fn final_label(m: u16) -> (label: Vec<u8>)
    ensures
        label@ == final_label_of(m as nat),
{
    let mut v: Vec<u8> = vec![
        'F' as u8, 'i' as u8, 'n' as u8, 'a' as u8, 'l' as u8, ' ' as u8,
        'M' as u8, 'a' as u8, 'x' as u8, 'i' as u8, 'm' as u8, 'u' as u8, 'm' as u8,
        ' ' as u8, ':' as u8, ' ' as u8, '?' as u8,
    ];
    push_decimal(&mut v, m as u64);
    v
}

/// A prefix sums to at most the whole.
proof fn lemma_prefix_sum(s: Seq<u8>, k: int)
    requires
        0 <= k <= s.len(),
    ensures
        seq_sum(s.take(k)) <= seq_sum(s),
    decreases s.len() - k,
{
    if k < s.len() {
        lemma_prefix_sum(s, k + 1);
        assert(s.take(k + 1).drop_last() == s.take(k));
    } else {
        assert(s.take(k) == s);
    }
}

/// The sum of the numbers, which must fit in 16 bits.
pub fn sum_of(sums: &Vec<u8>) -> (total: u16)
    requires
        seq_sum(sums@) <= u16::MAX,
    ensures
        total == seq_sum(sums@),
{
    let mut total: u16 = 0;
    let mut i: usize = 0;
    while i < sums.len()
        invariant
            0 <= i <= sums@.len(),
            seq_sum(sums@) <= u16::MAX,
            total == seq_sum(sums@.take(i as int)),
        decreases sums@.len() - i,
    {
        proof {
            lemma_prefix_sum(sums@, i + 1);
            assert(sums@.take(i + 1).drop_last() == sums@.take(i as int));
        }
        total = total + sums[i] as u16;
        i += 1;
    }
    assert(sums@.take(i as int) == sums@);
    total
}

/// The label of the walk's numbers (see `sum_label_of`). An empty list
/// with no columns has no `+` to take out and is refused.
pub fn sum_label(sums: &Vec<u8>, cols: u8) -> (label: Vec<u8>)
    requires
        sums@.len() > 0 || cols > 0,
    ensures
        label@ == sum_label_of(sums@, cols as int),
{
    let mut v: Vec<u8> = Vec::new();
    let mut i: usize = 0;
    while i < sums.len()
        invariant
            0 <= i <= sums@.len(),
            v@ == terms(sums@.take(i as int)),
        decreases sums@.len() - i,
    {
        proof {
            assert(sums@.take(i + 1).drop_last() == sums@.take(i as int));
        }
        push_decimal(&mut v, sums[i] as u64);
        v.push(' ' as u8);
        v.push('+' as u8);
        v.push(' ' as u8);
        i += 1;
    }
    assert(sums@.take(i as int) == sums@);
    if sums.len() == cols as usize {
        proof {
            lemma_terms_len(sums@);
            lemma_seq_sum_bound(sums@);
        }
        let last = v.len() - 2;
        let _ = v.remove(last);
        v.push('=' as u8);
        v.push(' ' as u8);
        let total = sum_of(sums);
        push_decimal(&mut v, total as u64);
    }
    v
}

} // verus!
