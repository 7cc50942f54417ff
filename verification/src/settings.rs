//! The settings text: four lines `name:value`, holding the grid size as
//! `<rows>x<columns>`, the bound of the random numbers, the pause between
//! two steps and the wait before the first, in milliseconds.

use vstd::prelude::*;

verus! {

/// The pieces of `s` between the bytes `sep`, in order; `n` such bytes give
/// `n + 1` pieces, some of which may be empty.
pub open spec fn split(s: Seq<u8>, sep: u8) -> Seq<Seq<u8>>
    decreases s.len(),
{
    if s.len() == 0 {
        seq![Seq::empty()]
    } else {
        let p = split(s.drop_last(), sep);
        if s.last() == sep {
            p.push(Seq::empty())
        } else {
            p.update(p.len() - 1, p.last().push(s.last()))
        }
    }
}

/// `b` is an ASCII decimal digit.
pub open spec fn is_digit(b: u8) -> bool {
    '0' as u8 <= b <= '9' as u8
}

/// The value of a string of decimal digits.
pub open spec fn digits_value(d: Seq<u8>) -> nat
    decreases d.len(),
{
    if d.len() == 0 {
        0
    } else {
        digits_value(d.drop_last()) * 10 + (d.last() - '0' as u8) as nat
    }
}

/// The text after a leading `+`, if there is one.
pub open spec fn without_plus(s: Seq<u8>) -> Seq<u8> {
    if s.len() > 0 && s[0] == '+' as u8 {
        s.drop_first()
    } else {
        s
    }
}

/// The unsigned number that `s` spells, if it spells one of at most `max`:
/// an optional `+` and then one or more decimal digits, nothing else.
pub open spec fn parse_unsigned(s: Seq<u8>, max: nat) -> Option<nat> {
    let d = without_plus(s);
    if d.len() > 0 && (forall|i: int| 0 <= i < d.len() ==> is_digit(#[trigger] d[i])) && digits_value(d)
        <= max {
        Some(digits_value(d))
    } else {
        None
    }
}

/// The part after the first `:` and before any second one, on line `line`.
pub open spec fn value_field(lines: Seq<Seq<u8>>, line: int) -> Option<Seq<u8>> {
    if line < lines.len() {
        let f = split(lines[line], ':' as u8);
        if 1 < f.len() {
            Some(f[1])
        } else {
            None
        }
    } else {
        None
    }
}

/// The settings.
pub struct Settings {
    /// `[rows, columns]` of the grid.
    pub table: [u8; 2],
    /// The random numbers are below this.
    pub max_number: u8,
    /// The pause between two steps, in milliseconds.
    pub refresh_rate_in_miliseconds: u64,
    /// The wait before the first step, in milliseconds.
    pub wait_then_solve_in_miliseconds: u64,
}

/// Why a settings text was refused: the value that is missing (no such
/// line, or no `:` on it, or no `x` in the size) or that is no number of
/// its type.
#[derive(PartialEq, Eq, Structural, Debug, Clone, Copy)]
pub enum SettingsError {
    MissingTableSize,
    BadRowCount,
    MissingColumnCount,
    BadColumnCount,
    MissingMaxNumber,
    BadMaxNumber,
    MissingRefreshRate,
    BadRefreshRate,
    MissingWaitTime,
    BadWaitTime,
}

/// The number on line `line`, after its `:`, within `max`; `missing` when
/// there is no such field, `bad` when it is no such number.
pub open spec fn number_field(
    lines: Seq<Seq<u8>>,
    line: int,
    max: nat,
    missing: SettingsError,
    bad: SettingsError,
) -> Result<nat, SettingsError> {
    match value_field(lines, line) {
        None => Err(missing),
        Some(f) => match parse_unsigned(f, max) {
            None => Err(bad),
            Some(v) => Ok(v),
        },
    }
}

/// What a settings text holds, read line by line and value by value, the
/// first missing or bad value deciding the error.
pub open spec fn settings_of(text: Seq<u8>) -> Result<Settings, SettingsError> {
    let lines = split(text, '\n' as u8);
    match value_field(lines, 0) {
        None => Err(SettingsError::MissingTableSize),
        Some(size) => {
            let dims = split(size, 'x' as u8);
            match parse_unsigned(dims[0], 255) {
                None => Err(SettingsError::BadRowCount),
                Some(rows) => if dims.len() < 2 {
                    Err(SettingsError::MissingColumnCount)
                } else {
                    match parse_unsigned(dims[1], 255) {
                        None => Err(SettingsError::BadColumnCount),
                        Some(cols) => match number_field(
                            lines,
                            1,
                            255,
                            SettingsError::MissingMaxNumber,
                            SettingsError::BadMaxNumber,
                        ) {
                            Err(e) => Err(e),
                            Ok(max_number) => match number_field(
                                lines,
                                2,
                                u64::MAX as nat,
                                SettingsError::MissingRefreshRate,
                                SettingsError::BadRefreshRate,
                            ) {
                                Err(e) => Err(e),
                                Ok(refresh) => match number_field(
                                    lines,
                                    3,
                                    u64::MAX as nat,
                                    SettingsError::MissingWaitTime,
                                    SettingsError::BadWaitTime,
                                ) {
                                    Err(e) => Err(e),
                                    Ok(wait) => Ok(
                                        Settings {
                                            table: [rows as u8, cols as u8],
                                            max_number: max_number as u8,
                                            refresh_rate_in_miliseconds: refresh as u64,
                                            wait_then_solve_in_miliseconds: wait as u64,
                                        },
                                    ),
                                },
                            },
                        },
                    }
                },
            }
        },
    }
}

/// Splitting always gives at least one piece.
pub proof fn lemma_split_len(s: Seq<u8>, sep: u8)
    ensures
        split(s, sep).len() >= 1,
    decreases s.len(),
{
    if s.len() > 0 {
        lemma_split_len(s.drop_last(), sep);
    }
}

/// For a string of digits, a longer prefix has a value at least as large.
proof fn lemma_digits_prefix(d: Seq<u8>, k: int)
    requires
        0 <= k <= d.len(),
        forall|i: int| 0 <= i < d.len() ==> is_digit(#[trigger] d[i]),
    ensures
        digits_value(d.take(k)) <= digits_value(d),
    decreases d.len() - k,
{
    if k < d.len() {
        lemma_digits_prefix(d, k + 1);
        assert(d.take(k + 1).drop_last() == d.take(k));
    } else {
        assert(d.take(k) == d);
    }
}

/// The pieces of `s` between the bytes `sep`.
pub fn split_bytes(s: &[u8], sep: u8) -> (pieces: Vec<Vec<u8>>)
    ensures
        pieces@.len() == split(s@, sep).len(),
        forall|i: int| 0 <= i < pieces@.len() ==> (#[trigger] pieces@[i])@ == split(s@, sep)[i],
{
    let mut pieces: Vec<Vec<u8>> = Vec::new();
    pieces.push(Vec::new());
    let mut i: usize = 0;
    while i < s.len()
        invariant
            0 <= i <= s@.len(),
            pieces@.len() >= 1,
            pieces@.len() == split(s@.take(i as int), sep).len(),
            forall|k: int|
                0 <= k < pieces@.len() ==> (#[trigger] pieces@[k])@ == split(s@.take(i as int), sep)[k],
        decreases s@.len() - i,
    {
        let b = s[i];
        let ghost prev = s@.take(i as int);
        assert(s@.take(i + 1).drop_last() == prev);
        if b == sep {
            pieces.push(Vec::new());
        } else {
            let last = pieces.len() - 1;
            let mut piece = pieces.remove(last);
            piece.push(b);
            pieces.push(piece);
        }
        i += 1;
    }
    assert(s@.take(i as int) == s@);
    pieces
}

/// The unsigned number that `s` spells, if it is at most `u64::MAX`.
pub fn parse_u64(s: &Vec<u8>) -> (value: Option<u64>)
    ensures
        match parse_unsigned(s@, u64::MAX as nat) {
            Some(v) => value == Some(v as u64),
            None => value is None,
        },
{
    let mut start: usize = 0;
    if s.len() > 0 && s[0] == '+' as u8 {
        start = 1;
    }
    let ghost d = without_plus(s@);
    if start == s.len() {
        return None;
    }
    let mut acc: u64 = 0;
    let mut i: usize = start;
    while i < s.len()
        invariant
            start <= i <= s@.len(),
            d == s@.skip(start as int),
            d == without_plus(s@),
            forall|k: int| 0 <= k < i - start ==> is_digit(#[trigger] d[k]),
            acc == digits_value(d.take(i - start)),
        decreases s@.len() - i,
    {
        let b = s[i];
        assert(d.take(i - start + 1).drop_last() == d.take(i - start));
        if b < '0' as u8 || b > '9' as u8 {
            assert(!is_digit(d[i - start]));
            return None;
        }
        let digit = (b - '0' as u8) as u64;
        match acc.checked_mul(10) {
            None => {
                proof {
                    if forall|k: int| 0 <= k < d.len() ==> is_digit(#[trigger] d[k]) {
                        lemma_digits_prefix(d, i - start + 1);
                    }
                }
                return None;
            },
            Some(tens) => match tens.checked_add(digit) {
                None => {
                    proof {
                        if forall|k: int| 0 <= k < d.len() ==> is_digit(#[trigger] d[k]) {
                            lemma_digits_prefix(d, i - start + 1);
                        }
                    }
                    return None;
                },
                Some(next) => {
                    acc = next;
                },
            },
        }
        i += 1;
    }
    assert(d.take(i - start) == d);
    Some(acc)
}

/// The unsigned number that `s` spells, if it is at most `max`.
fn parse_at_most(s: &Vec<u8>, max: u64) -> (value: Option<u64>)
    ensures
        match parse_unsigned(s@, max as nat) {
            Some(v) => value == Some(v as u64),
            None => value is None,
        },
{
    match parse_u64(s) {
        Some(v) => if v <= max {
            Some(v)
        } else {
            None
        },
        None => None,
    }
}

/// The value field of line `line`: the piece after the first `:`.
fn value_field_of(lines: &Vec<Vec<u8>>, line: usize) -> (field: Option<Vec<u8>>)
    ensures
        match value_field(lines@.map_values(|l: Vec<u8>| l@), line as int) {
            Some(f) => field is Some && field->0@ == f,
            None => field is None,
        },
{
    if line < lines.len() {
        let pieces = split_bytes(lines[line].as_slice(), ':' as u8);
        if 1 < pieces.len() {
            let mut pieces = pieces;
            Some(pieces.swap_remove(1))
        } else {
            None
        }
    } else {
        None
    }
}

/// The number on line `line`, after its `:`, within `max`.
fn number_field_of(
    lines: &Vec<Vec<u8>>,
    line: usize,
    max: u64,
    missing: SettingsError,
    bad: SettingsError,
) -> (value: Result<u64, SettingsError>)
    ensures
        match number_field(lines@.map_values(|l: Vec<u8>| l@), line as int, max as nat, missing, bad) {
            Ok(v) => value == Ok::<u64, SettingsError>(v as u64),
            Err(e) => value == Err::<u64, SettingsError>(e),
        },
{
    match value_field_of(lines, line) {
        None => Err(missing),
        Some(f) => match parse_at_most(&f, max) {
            None => Err(bad),
            Some(v) => Ok(v),
        },
    }
}

/// Reads the settings text: line 1 after its `:` holds `<rows>x<columns>`,
/// lines 2, 3 and 4 after their `:` the bound of the random numbers, the
/// pause between steps and the wait before the first step. Every number is
/// an optional `+` and decimal digits, and must fit its type (bytes for the
/// first three, 64 bits for the times). Text after a second `:` or `x` is
/// ignored, as are lines after the fourth.
pub fn parse_settings(text: &[u8]) -> (settings: Result<Settings, SettingsError>)
    ensures
        settings == settings_of(text@),
{
    let raw_lines = split_bytes(text, '\n' as u8);
    let ghost lines = split(text@, '\n' as u8);
    let size = match value_field_of(&raw_lines, 0) {
        None => {
            return Err(SettingsError::MissingTableSize);
        },
        Some(size) => size,
    };
    let dims = split_bytes(size.as_slice(), 'x' as u8);
    proof {
        lemma_split_len(size@, 'x' as u8);
    }
    let rows = match parse_at_most(&dims[0], 255) {
        None => {
            return Err(SettingsError::BadRowCount);
        },
        Some(rows) => rows as u8,
    };
    if dims.len() < 2 {
        return Err(SettingsError::MissingColumnCount);
    }
    let cols = match parse_at_most(&dims[1], 255) {
        None => {
            return Err(SettingsError::BadColumnCount);
        },
        Some(cols) => cols as u8,
    };
    let max_number = match number_field_of(
        &raw_lines,
        1,
        255,
        SettingsError::MissingMaxNumber,
        SettingsError::BadMaxNumber,
    ) {
        Err(e) => {
            return Err(e);
        },
        Ok(v) => v as u8,
    };
    let refresh = match number_field_of(
        &raw_lines,
        2,
        u64::MAX,
        SettingsError::MissingRefreshRate,
        SettingsError::BadRefreshRate,
    ) {
        Err(e) => {
            return Err(e);
        },
        Ok(v) => v,
    };
    let wait = match number_field_of(
        &raw_lines,
        3,
        u64::MAX,
        SettingsError::MissingWaitTime,
        SettingsError::BadWaitTime,
    ) {
        Err(e) => {
            return Err(e);
        },
        Ok(v) => v,
    };
    Ok(
        Settings {
            table: [rows, cols],
            max_number,
            refresh_rate_in_miliseconds: refresh,
            wait_then_solve_in_miliseconds: wait,
        },
    )
}

} // verus!
