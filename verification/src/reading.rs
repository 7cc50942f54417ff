//! What the labels and the settings text say, read back as numbers.

use vstd::prelude::*;

use crate::laws::lemma_decimal_reads_back;
use crate::settings::{
    digits_value, is_digit, split, parse_unsigned, settings_of, Settings, SettingsError,
    lemma_split_len,
};
use crate::text::{
    decimal, terms, final_label_of, final_prefix, max_label_of, max_prefix, arrow_suffix,
    sum_label_of, lemma_terms_len,
};
use crate::walk::{seq_sum, lemma_seq_sum_bound};

verus! {

/// The final label is `"Final Maximum : ?"` followed by decimal digits,
/// and nothing else, that read back as the reported best `m` itself.
pub proof fn lemma_final_label_shows_the_best(m: u16)
    ensures
        ({
            let s = final_label_of(m as nat);
            &&& s.len() > 17
            &&& s.take(17) == seq![
                'F' as u8, 'i' as u8, 'n' as u8, 'a' as u8, 'l' as u8, ' ' as u8,
                'M' as u8, 'a' as u8, 'x' as u8, 'i' as u8, 'm' as u8, 'u' as u8, 'm' as u8,
                ' ' as u8, ':' as u8, ' ' as u8, '?' as u8,
            ]
            &&& forall|i: int| 17 <= i < s.len() ==> is_digit(#[trigger] s[i])
            &&& digits_value(s.skip(17)) == m
        }),
{
    let s = final_label_of(m as nat);
    lemma_decimal_reads_back(m as nat);
    assert(s.take(17) =~= final_prefix());
    assert(s.skip(17) =~= decimal(m as nat));
    assert forall|i: int| 17 <= i < s.len() implies is_digit(#[trigger] s[i]) by {
        assert(s[i] == decimal(m as nat)[i - 17]);
    }
}

/// A row's label is `"Max : "`, then decimal digits that read back as the
/// row's best `m` itself, then `" ->"`.
pub proof fn lemma_max_label_shows_the_best(m: u16)
    ensures
        ({
            let s = max_label_of(m as nat);
            &&& s.len() > 9
            &&& s.take(6) == seq!['M' as u8, 'a' as u8, 'x' as u8, ' ' as u8, ':' as u8, ' ' as u8]
            &&& s.skip(s.len() - 3) == seq![' ' as u8, '-' as u8, '>' as u8]
            &&& forall|i: int| 6 <= i < s.len() - 3 ==> is_digit(#[trigger] s[i])
            &&& digits_value(s.subrange(6, s.len() - 3)) == m
        }),
{
    let s = max_label_of(m as nat);
    let d = decimal(m as nat);
    lemma_decimal_reads_back(m as nat);
    assert(s.take(6) =~= max_prefix());
    assert(s.skip(s.len() - 3) =~= arrow_suffix());
    assert(s.subrange(6, s.len() - 3) =~= d);
    assert forall|i: int| 6 <= i < s.len() - 3 implies is_digit(#[trigger] s[i]) by {
        assert(s[i] == d[i - 6]);
    }
}

/// The terms of a walk's numbers hold no `=`.
proof fn lemma_terms_no_equals(s: Seq<u8>)
    ensures
        forall|i: int| 0 <= i < terms(s).len() ==> #[trigger] terms(s)[i] != '=' as u8,
    decreases s.len(),
{
    if s.len() > 0 {
        let a = terms(s.drop_last());
        let d = decimal(s.last() as nat);
        lemma_terms_no_equals(s.drop_last());
        lemma_decimal_reads_back(s.last() as nat);
        let t = terms(s);
        assert forall|i: int| 0 <= i < t.len() implies #[trigger] t[i] != '=' as u8 by {
            if i < a.len() {
                assert(t[i] == a[i]);
            } else if i < a.len() + d.len() {
                assert(t[i] == d[i - a.len()]);
                assert(is_digit(d[i - a.len()]));
            }
        }
    }
}

/// The label of a walk through all `cols` columns holds exactly one `=`;
/// a space follows it, and then decimal digits to the end that read back as
/// the sum of the walk's numbers, the total its row's best is weighed by.
pub proof fn lemma_sum_label_shows_the_sum(sums: Seq<u8>, cols: int)
    requires
        sums.len() == cols,
        cols > 0,
    ensures
        ({
            let s = sum_label_of(sums, cols);
            &&& exists|k: int| 0 <= k < s.len() && #[trigger] s[k] == '=' as u8
            &&& forall|k: int|
                0 <= k < s.len() && #[trigger] s[k] == '=' as u8 ==> {
                    &&& k + 2 < s.len()
                    &&& s[k + 1] == ' ' as u8
                    &&& forall|i: int| k + 2 <= i < s.len() ==> is_digit(#[trigger] s[i])
                    &&& digits_value(s.skip(k + 2)) == seq_sum(sums)
                }
        }),
{
    let t = terms(sums);
    lemma_terms_len(sums);
    lemma_terms_no_equals(sums);
    let a = t.remove(t.len() - 2);
    let n = seq_sum(sums);
    lemma_seq_sum_bound(sums);
    let d = decimal(n as nat);
    lemma_decimal_reads_back(n as nat);
    let s = sum_label_of(sums, cols);
    assert(s == a + seq!['=' as u8, ' ' as u8] + d);
    assert forall|i: int| 0 <= i < a.len() implies #[trigger] a[i] != '=' as u8 by {
        if i < t.len() - 2 {
            assert(a[i] == t[i]);
        } else {
            assert(a[i] == t[i + 1]);
        }
    }
    let k0 = a.len() as int;
    assert(s[k0] == '=' as u8);
    assert forall|k: int| 0 <= k < s.len() && #[trigger] s[k] == '=' as u8 implies {
        &&& k + 2 < s.len()
        &&& s[k + 1] == ' ' as u8
        &&& forall|i: int| k + 2 <= i < s.len() ==> is_digit(#[trigger] s[i])
        &&& digits_value(s.skip(k + 2)) == seq_sum(sums)
    } by {
        if k < k0 {
            assert(s[k] == a[k]);
        } else if k >= k0 + 2 {
            assert(s[k] == d[k - k0 - 2]);
            assert(is_digit(d[k - k0 - 2]));
        } else {
            assert(k == k0);
            assert(s.skip(k + 2) =~= d);
            assert forall|i: int| k + 2 <= i < s.len() implies is_digit(#[trigger] s[i]) by {
                assert(s[i] == d[i - k0 - 2]);
            }
        }
    }
}

/// `s` holds no byte `sep`.
pub open spec fn free_of(s: Seq<u8>, sep: u8) -> bool {
    forall|i: int| 0 <= i < s.len() ==> s[i] != sep
}

/// The line `<key>:<value>`.
pub open spec fn setting_line(key: Seq<u8>, value: Seq<u8>) -> Seq<u8> {
    key + seq![':' as u8] + value
}

/// A piece with no separator in it splits into itself alone.
proof fn lemma_split_single(a: Seq<u8>, sep: u8)
    requires
        free_of(a, sep),
    ensures
        split(a, sep) == seq![a],
    decreases a.len(),
{
    if a.len() == 0 {
        assert(a =~= Seq::empty());
        assert(split(a, sep) =~= seq![a]);
    } else {
        lemma_split_single(a.drop_last(), sep);
        assert(a.drop_last().push(a.last()) =~= a);
        assert(a.last() == a[a.len() - 1]);
        assert(split(a, sep) =~= seq![a]);
    }
}

/// A piece with no separator in it, a separator and the rest split into
/// that piece followed by the pieces of the rest.
proof fn lemma_split_join(a: Seq<u8>, b: Seq<u8>, sep: u8)
    requires
        free_of(a, sep),
    ensures
        split(a + seq![sep] + b, sep) == seq![a] + split(b, sep),
    decreases b.len(),
{
    let s = a + seq![sep] + b;
    lemma_split_single(a, sep);
    if b.len() == 0 {
        assert(s.drop_last() =~= a);
        assert(split(s, sep) =~= seq![a] + split(b, sep));
    } else {
        lemma_split_join(a, b.drop_last(), sep);
        lemma_split_len(b.drop_last(), sep);
        assert(s.drop_last() =~= a + seq![sep] + b.drop_last());
        assert(split(s, sep) =~= seq![a] + split(b, sep));
    }
}

/// The decimal digits of `n` hold none of the bytes that the settings text
/// uses as separators, and no `+`.
proof fn lemma_decimal_free(n: nat)
    ensures
        free_of(decimal(n), '\n' as u8),
        free_of(decimal(n), ':' as u8),
        free_of(decimal(n), 'x' as u8),
        decimal(n).len() > 0,
        decimal(n)[0] != '+' as u8,
        forall|max: nat| n <= max ==> #[trigger] parse_unsigned(decimal(n), max) == Some(n),
{
    lemma_decimal_reads_back(n);
    assert(is_digit(decimal(n)[0]));
}

/// The value of a line `<key>:<value>`, whose key and value hold no `:`.
proof fn lemma_line_value(key: Seq<u8>, value: Seq<u8>)
    requires
        free_of(key, ':' as u8),
        free_of(value, ':' as u8),
    ensures
        split(setting_line(key, value), ':' as u8) == seq![key, value],
{
    lemma_split_join(key, value, ':' as u8);
    lemma_split_single(value, ':' as u8);
    assert(seq![key] + seq![value] =~= seq![key, value]);
}

/// A settings text written out from its values reads back as those values:
/// four lines, each a key (with no `:` or line break in it), a `:` and the
/// value in decimal digits, the first `<rows>x<columns>`. Every value of
/// its type is accepted: sizes and the bound up to 255, the pause and the
/// wait up to `u64::MAX`.
pub proof fn lemma_settings_text_reads_back(
    keys: Seq<Seq<u8>>,
    rows: u8,
    cols: u8,
    max_number: u8,
    refresh: u64,
    wait: u64,
)
    requires
        keys.len() == 4,
        forall|i: int| 0 <= i < 4 ==> free_of(#[trigger] keys[i], ':' as u8) && free_of(
            keys[i],
            '\n' as u8,
        ),
    ensures
        settings_of(
            setting_line(
                keys[0],
                decimal(rows as nat) + seq!['x' as u8] + decimal(cols as nat),
            ) + seq!['\n' as u8] + setting_line(keys[1], decimal(max_number as nat)) + seq![
                '\n' as u8,
            ] + setting_line(keys[2], decimal(refresh as nat)) + seq!['\n' as u8] + setting_line(
                keys[3],
                decimal(wait as nat),
            ),
        ) == Ok::<Settings, SettingsError>(
            Settings {
                table: [rows, cols],
                max_number,
                refresh_rate_in_miliseconds: refresh,
                wait_then_solve_in_miliseconds: wait,
            },
        ),
{
    let nl = '\n' as u8;
    let size = decimal(rows as nat) + seq!['x' as u8] + decimal(cols as nat);
    let l0 = setting_line(keys[0], size);
    let l1 = setting_line(keys[1], decimal(max_number as nat));
    let l2 = setting_line(keys[2], decimal(refresh as nat));
    let l3 = setting_line(keys[3], decimal(wait as nat));
    let text = l0 + seq![nl] + l1 + seq![nl] + l2 + seq![nl] + l3;
    lemma_decimal_free(rows as nat);
    lemma_decimal_free(cols as nat);
    lemma_decimal_free(max_number as nat);
    lemma_decimal_free(refresh as nat);
    lemma_decimal_free(wait as nat);
    assert(free_of(keys[0], ':' as u8) && free_of(keys[0], nl));
    assert(free_of(keys[1], ':' as u8) && free_of(keys[1], nl));
    assert(free_of(keys[2], ':' as u8) && free_of(keys[2], nl));
    assert(free_of(keys[3], ':' as u8) && free_of(keys[3], nl));
    // no line break inside a line, no `:` inside a value
    assert forall|key: Seq<u8>, v: Seq<u8>| free_of(key, nl) && free_of(v, nl) implies free_of(
        #[trigger] setting_line(key, v),
        nl,
    ) by {
        let l = setting_line(key, v);
        assert forall|i: int| 0 <= i < l.len() implies l[i] != nl by {
            if i < key.len() {
                assert(l[i] == key[i]);
            } else if i > key.len() {
                assert(l[i] == v[i - key.len() - 1]);
            }
        }
    }
    assert forall|i: int| 0 <= i < size.len() implies size[i] != nl && size[i] != ':' as u8 by {
        let dr = decimal(rows as nat);
        if i < dr.len() {
            assert(size[i] == dr[i]);
        } else if i > dr.len() {
            assert(size[i] == decimal(cols as nat)[i - dr.len() - 1]);
        }
    }
    assert(free_of(size, nl));
    assert(free_of(size, ':' as u8));
    // the lines
    lemma_split_single(l3, nl);
    lemma_split_join(l2, l3, nl);
    lemma_split_join(l1, l2 + seq![nl] + l3, nl);
    lemma_split_join(l0, l1 + seq![nl] + l2 + seq![nl] + l3, nl);
    assert(text =~= l0 + seq![nl] + (l1 + seq![nl] + l2 + seq![nl] + l3));
    assert(l1 + seq![nl] + l2 + seq![nl] + l3 =~= l1 + seq![nl] + (l2 + seq![nl] + l3));
    let lines = split(text, nl);
    assert(lines =~= seq![l0, l1, l2, l3]);
    // the values
    lemma_line_value(keys[0], size);
    lemma_line_value(keys[1], decimal(max_number as nat));
    lemma_line_value(keys[2], decimal(refresh as nat));
    lemma_line_value(keys[3], decimal(wait as nat));
    lemma_split_join(decimal(rows as nat), decimal(cols as nat), 'x' as u8);
    lemma_split_single(decimal(cols as nat), 'x' as u8);
    assert(split(size, 'x' as u8) =~= seq![decimal(rows as nat), decimal(cols as nat)]);
    assert(parse_unsigned(decimal(rows as nat), 255) == Some(rows as nat));
    assert(parse_unsigned(decimal(cols as nat), 255) == Some(cols as nat));
    assert(parse_unsigned(decimal(max_number as nat), 255) == Some(max_number as nat));
    assert(parse_unsigned(decimal(refresh as nat), u64::MAX as nat) == Some(refresh as nat));
    assert(parse_unsigned(decimal(wait as nat), u64::MAX as nat) == Some(wait as nat));
}

} // verus!
