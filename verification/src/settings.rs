//! The text format of settings files, read one line at a time.
//!
//! A settings file holds, one per line and in a fixed order: the version,
//! then for each analog channel its name, colour, two chart flags and three
//! factors, then for each digital channel its name, colour, chart flag and
//! offset, then the refresh period. Each line is accepted when it contains
//! its key; the value is what follows its first `:`. The factors are
//! floating-point numbers and are handed back as byte ranges for the caller
//! to convert.

use vstd::prelude::*;
use crate::rtmap::{ACHANELS, DCHANELS};

verus! {

/// Why an integer could not be read (the kinds of `ParseIntError`).
#[derive(Debug, PartialEq, Eq, Structural, Clone, Copy)]
pub enum IntError {
    Empty,
    InvalidDigit,
    PosOverflow,
}

/// Why a settings file could not be read.
#[derive(Debug, PartialEq, Eq, Structural, Clone, Copy)]
pub enum SettingsError {
    /// a line is missing or does not hold its key
    Parser,
    /// the version is not 1
    VersionUnknown,
    /// an integer value is malformed
    Int(IntError),
    /// a flag is neither `true` nor `false`
    Bool,
}

/// The value read from one line of a settings file.
#[derive(Debug, PartialEq, Eq, Structural, Clone, Copy)]
pub enum SettingsItem {
    /// the version line, of version 1
    Version,
    /// name of analog channel `0`: the bytes `1..2` of the text
    AName(usize, usize, usize),
    /// colour of analog channel `0` (red, green, blue, alpha)
    AColor(usize, u8, u8, u8, u8),
    AView(usize, bool),
    AView2(usize, bool),
    /// conversion factor of analog channel `0`: its text is the bytes `1..2`
    AConverter(usize, usize, usize),
    AReduction(usize, usize, usize),
    AReduction2(usize, usize, usize),
    DName(usize, usize, usize),
    DColor(usize, u8, u8, u8, u8),
    DView(usize, bool),
    DConverter(usize, usize, usize),
    /// refresh period in ms
    Duration(usize),
}

/// Number of lines read from a settings file.
pub const SETTINGS_LINES: usize = 242;

/// Outcome of reading one line: the value and where the next line starts,
/// an error, or a line on which reading cannot go on (a colour line whose
/// fields are not separated as expected).
pub enum StepResult {
    Item(SettingsItem, int),
    Fail(SettingsError),
    Stuck,
}

/// First `\n` from `i` on.
pub open spec fn first_nl(t: Seq<u8>, i: int) -> Option<int>
    decreases t.len() - i,
{
    if i < 0 || i >= t.len() {
        None
    } else if t[i] == 10u8 {
        Some(i)
    } else {
        first_nl(t, i + 1)
    }
}

/// The line starting at `pos`, as in `str::lines`: its content `start..end`
/// (without `\n` and a `\r` before it) and where the next line starts.
pub open spec fn line_at(t: Seq<u8>, pos: int) -> Option<(int, int, int)> {
    if pos < 0 || pos >= t.len() {
        None
    } else {
        match first_nl(t, pos) {
            Some(q) => Some(
                (pos, if q > pos && t[q - 1] == 13u8 { q - 1 } else { q }, q + 1),
            ),
            None => Some((pos, t.len() as int, t.len() as int)),
        }
    }
}

/// `t[s..e]` contains `key`.
pub open spec fn contains(t: Seq<u8>, s: int, e: int, key: Seq<u8>) -> bool {
    exists|i: int| s <= i && i + key.len() <= e && #[trigger] t.subrange(i, i + key.len()) == key
}

/// First `:` in `t[i..e]`.
pub open spec fn first_colon(t: Seq<u8>, i: int, e: int) -> Option<int>
    decreases e - i,
{
    if i < 0 || i >= e {
        None
    } else if t[i] == 58u8 {
        Some(i)
    } else {
        first_colon(t, i + 1, e)
    }
}

/// Accumulates the decimal digits `b[i..]` onto `acc`, as unsigned integer
/// parsing does: the first non-digit, or the first step past `max`, is the error.
pub open spec fn digits_value(b: Seq<u8>, i: int, acc: int, max: int) -> Result<int, IntError>
    decreases b.len() - i,
{
    if i < 0 || i >= b.len() {
        Ok(acc)
    } else if !(48 <= b[i] <= 57) {
        Err(IntError::InvalidDigit)
    } else if acc * 10 + (b[i] - 48) > max {
        Err(IntError::PosOverflow)
    } else {
        digits_value(b, i + 1, acc * 10 + (b[i] - 48), max)
    }
}

/// The unsigned integer (at most `max`) written in `b`: an optional `+`,
/// then decimal digits.
pub open spec fn parse_uint(b: Seq<u8>, max: int) -> Result<int, IntError> {
    if b.len() == 0 {
        Err(IntError::Empty)
    } else if b[0] == 43u8 {
        if b.len() == 1 {
            Err(IntError::InvalidDigit)
        } else {
            digits_value(b, 1, 0, max)
        }
    } else {
        digits_value(b, 0, 0, max)
    }
}

/// The flag written in `b`: exactly `true` or `false`.
pub open spec fn parse_flag(b: Seq<u8>) -> Option<bool> {
    if b == seq![116u8, 114u8, 117u8, 101u8] {
        Some(true)
    } else if b == seq![102u8, 97u8, 108u8, 115u8, 101u8] {
        Some(false)
    } else {
        None
    }
}


proof fn lemma_first_colon_range(t: Seq<u8>, i: int, e: int)
    ensures
        first_colon(t, i, e) matches Some(c) ==> i <= c < e && t[c] == 58u8,
    decreases e - i,
{
    if 0 <= i < e && t[i] != 58u8 {
        lemma_first_colon_range(t, i + 1, e);
    }
}

proof fn lemma_digits_range(b: Seq<u8>, i: int, acc: int, max: int)
    requires
        0 <= acc <= max,
    ensures
        digits_value(b, i, acc, max) matches Ok(v) ==> 0 <= v <= max,
    decreases b.len() - i,
{
    if 0 <= i < b.len() && 48 <= b[i] <= 57 && acc * 10 + (b[i] - 48) <= max {
        lemma_digits_range(b, i + 1, acc * 10 + (b[i] - 48), max);
    }
}

/// A number read by `parse_uint` lies in `0..=max`.
proof fn lemma_parse_uint_range(b: Seq<u8>, max: int)
    requires
        0 <= max,
    ensures
        parse_uint(b, max) matches Ok(v) ==> 0 <= v <= max,
{
    lemma_digits_range(b, 0, 0, max);
    lemma_digits_range(b, 1, 0, max);
}

proof fn lemma_first_nl_range(t: Seq<u8>, i: int)
    ensures
        first_nl(t, i) matches Some(q) ==> i <= q < t.len(),
    decreases t.len() - i,
{
    if 0 <= i < t.len() && t[i] != 10u8 {
        lemma_first_nl_range(t, i + 1);
    }
}

fn next_line(t: &[u8], pos: usize) -> (r: Option<(usize, usize, usize)>)
    ensures
        r == match line_at(t@, pos as int) {
            Some(l) => Some((l.0 as usize, l.1 as usize, l.2 as usize)),
            None => None::<(usize, usize, usize)>,
        },
        r matches Some(l) ==> l.0 <= l.1 <= l.2 <= t@.len() && l.0 < l.2,
        line_at(t@, pos as int) matches Some(l) ==> 0 <= l.0 <= l.1 <= l.2 <= t@.len(),
        t@.len() <= usize::MAX,
{
    let _n = t.len();
    proof {
        lemma_first_nl_range(t@, pos as int);
    }
    if pos >= t.len() {
        return None;
    }
    let mut q: usize = pos;
    while q < t.len()
        invariant
            pos <= q <= t@.len(),
            pos < t@.len(),
            first_nl(t@, pos as int) == first_nl(t@, q as int),
        decreases t@.len() - q,
    {
        if t[q] == 10u8 {
            let end: usize = if q > pos && t[q - 1] == 13u8 { q - 1 } else { q };
            return Some((pos, end, q + 1));
        }
        q = q + 1;
    }
    Some((pos, t.len(), t.len()))
}

fn contains_exec(t: &[u8], s: usize, e: usize, key: &Vec<u8>) -> (r: bool)
    requires
        s <= e <= t@.len(),
    ensures
        r == contains(t@, s as int, e as int, key@),
{
    let k = key.len();
    if k > e - s {
        return false;
    }
    let mut i: usize = s;
    while i <= e - k
        invariant
            s <= i,
            k == key@.len(),
            k <= e - s,
            e <= t@.len(),
            forall|j: int| s <= j < i ==> #[trigger] t@.subrange(j, j + k) != key@,
        decreases e - i,
    {
        let mut m: usize = 0;
        let mut same: bool = true;
        while m < k
            invariant
                m <= k,
                k == key@.len(),
                i + k <= e <= t@.len(),
                same <==> forall|x: int| 0 <= x < m ==> t@[i + x] == key@[x],
            decreases k - m,
        {
            if t[i + m] != key[m] {
                same = false;
            }
            m = m + 1;
        }
        if same {
            assert(t@.subrange(i as int, i + k) =~= key@);
            return true;
        }
        assert(t@.subrange(i as int, i + k) != key@) by {
            let x = choose|x: int| 0 <= x < k && t@[i + x] != key@[x];
            assert(t@.subrange(i as int, i + k)[x] == t@[i + x]);
        }
        i = i + 1;
    }
    false
}

fn first_colon_exec(t: &[u8], s: usize, e: usize) -> (r: Option<usize>)
    requires
        s <= e <= t@.len(),
    ensures
        r == match first_colon(t@, s as int, e as int) {
            Some(c) => Some(c as usize),
            None => None::<usize>,
        },
        r matches Some(c) ==> s <= c < e,
        first_colon(t@, s as int, e as int) matches Some(c) ==> s <= c < e && t@[c] == 58u8,
{
    proof {
        lemma_first_colon_range(t@, s as int, e as int);
    }
    let mut i: usize = s;
    while i < e
        invariant
            s <= i <= e <= t@.len(),
            first_colon(t@, s as int, e as int) == first_colon(t@, i as int, e as int),
        decreases e - i,
    {
        if t[i] == 58u8 {
            return Some(i);
        }
        i = i + 1;
    }
    None
}

/// The unsigned integer of at most `max` written in `t[s..e]`.
fn parse_uint_exec(t: &[u8], s: usize, e: usize, max: u64) -> (r: Result<u64, IntError>)
    requires
        s <= e <= t@.len(),
    ensures
        r == match parse_uint(t@.subrange(s as int, e as int), max as int) {
            Ok(v) => Ok(v as u64),
            Err(er) => Err::<u64, IntError>(er),
        },
        r matches Ok(v) ==> v <= max,
        parse_uint(t@.subrange(s as int, e as int), max as int) matches Ok(v) ==> 0 <= v <= max,
{
    let ghost b = t@.subrange(s as int, e as int);
    proof {
        lemma_parse_uint_range(b, max as int);
    }
    if s == e {
        return Err(IntError::Empty);
    }
    let mut i: usize = s;
    if t[s] == 43u8 {
        if e - s == 1 {
            return Err(IntError::InvalidDigit);
        }
        i = s + 1;
    }
    let mut acc: u64 = 0;
    while i < e
        invariant
            s <= i <= e <= t@.len(),
            b == t@.subrange(s as int, e as int),
            acc <= max,
            parse_uint(b, max as int) == digits_value(b, i - s, acc as int, max as int),
        decreases e - i,
    {
        let c = t[i];
        assert(b[i - s] == c);
        if !(48u8 <= c && c <= 57u8) {
            return Err(IntError::InvalidDigit);
        }
        let next: u128 = (acc as u128) * 10 + ((c - 48u8) as u128);
        if next > max as u128 {
            return Err(IntError::PosOverflow);
        }
        acc = next as u64;
        i = i + 1;
    }
    Ok(acc)
}

fn parse_flag_exec(t: &[u8], s: usize, e: usize) -> (r: Option<bool>)
    requires
        s <= e <= t@.len(),
    ensures
        r == parse_flag(t@.subrange(s as int, e as int)),
{
    let ghost b = t@.subrange(s as int, e as int);
    if e - s == 4 && t[s] == 116u8 && t[s + 1] == 114u8 && t[s + 2] == 117u8 && t[s + 3] == 101u8 {
        assert(b =~= seq![116u8, 114u8, 117u8, 101u8]);
        return Some(true);
    }
    if e - s == 5 && t[s] == 102u8 && t[s + 1] == 97u8 && t[s + 2] == 108u8 && t[s + 3] == 115u8 && t[s + 4]
        == 101u8 {
        assert(b =~= seq![102u8, 97u8, 108u8, 115u8, 101u8]);
        return Some(false);
    }
    proof {
        assert(b.len() == e - s);
        if b == seq![116u8, 114u8, 117u8, 101u8] {
            assert(seq![116u8, 114u8, 117u8, 101u8].len() == 4);
            assert(b[0] == t@[s as int] && b[1] == t@[s + 1] && b[2] == t@[s + 2] && b[3] == t@[s + 3]);
            assert(b[0] == 116u8 && b[1] == 114u8 && b[2] == 117u8 && b[3] == 101u8);
        }
        if b == seq![102u8, 97u8, 108u8, 115u8, 101u8] {
            assert(seq![102u8, 97u8, 108u8, 115u8, 101u8].len() == 5);
            assert(b[0] == t@[s as int] && b[1] == t@[s + 1] && b[2] == t@[s + 2] && b[3] == t@[s + 3] && b[4] == t@[s + 4]);
            assert(b[0] == 102u8 && b[1] == 97u8 && b[2] == 108u8 && b[3] == 115u8 && b[4] == 101u8);
        }
    }
    None
}


/// Outcome of reading a colour line.
pub enum ColorResult {
    Read(u8, u8, u8, u8),
    Bad(IntError),
    Stuck,
}

/// A byte inside a multi-byte UTF-8 character.
pub open spec fn is_cont(b: u8) -> bool {
    128 <= b <= 191
}

/// The four components with component `k` set to `v`.
pub open spec fn set_comp(c: (u8, u8, u8, u8), k: int, v: u8) -> (u8, u8, u8, u8) {
    if k == 0 {
        (v, c.1, c.2, c.3)
    } else if k == 1 {
        (c.0, v, c.2, c.3)
    } else if k == 2 {
        (c.0, c.1, v, c.3)
    } else {
        (c.0, c.1, c.2, v)
    }
}

/// Reads the colour line `t[s..e]` from byte `p` on, `ci` being the number of
/// characters before `p`. At each `:` the number after it is read, up to the
/// next `:` for the first three components and to the end of the line for
/// the fourth; the number is located by the position of the `:` counted in
/// characters, used as a byte offset into the line.
pub open spec fn color_scan(t: Seq<u8>, s: int, e: int, p: int, ci: int, cnt: int, c: (u8, u8, u8, u8)) -> ColorResult
    decreases e - p,
{
    if p < s || p >= e {
        ColorResult::Read(c.0, c.1, c.2, c.3)
    } else {
        let ci2 = if is_cont(t[p]) { ci } else { ci + 1 };
        if t[p] != 58u8 {
            color_scan(t, s, e, p + 1, ci2, cnt, c)
        } else {
            let ind = s + ci + 1;
            if ind < e && is_cont(t[ind]) {
                ColorResult::Stuck
            } else if cnt < 3 {
                match first_colon(t, ind, e) {
                    None => ColorResult::Stuck,
                    Some(q) => match parse_uint(t.subrange(ind, q), 255) {
                        Err(er) => ColorResult::Bad(er),
                        Ok(v) => color_scan(t, s, e, p + 1, ci2, cnt + 1, set_comp(c, cnt, v as u8)),
                    },
                }
            } else {
                match parse_uint(t.subrange(ind, e), 255) {
                    Err(er) => ColorResult::Bad(er),
                    Ok(v) => color_scan(t, s, e, p + 1, ci2, cnt, set_comp(c, 3, v as u8)),
                }
            }
        }
    }
}

fn color_exec(t: &[u8], s: usize, e: usize) -> (r: ColorResult)
    requires
        s <= e <= t@.len(),
    ensures
        r == color_scan(t@, s as int, e as int, s as int, 0, 0, (0u8, 0u8, 0u8, 0u8)),
{
    let mut p: usize = s;
    let mut ci: usize = 0;
    let mut cnt: usize = 0;
    let mut c: (u8, u8, u8, u8) = (0, 0, 0, 0);
    while p < e
        invariant
            s <= p <= e <= t@.len(),
            ci <= p - s,
            cnt <= 3,
            color_scan(t@, s as int, e as int, s as int, 0, 0, (0u8, 0u8, 0u8, 0u8)) == color_scan(
                t@,
                s as int,
                e as int,
                p as int,
                ci as int,
                cnt as int,
                c,
            ),
        decreases e - p,
    {
        let b = t[p];
        let ci2: usize = if 128u8 <= b && b <= 191u8 { ci } else { ci + 1 };
        if b == 58u8 {
            let ind: usize = s + ci + 1;
            if ind < e && 128u8 <= t[ind] && t[ind] <= 191u8 {
                return ColorResult::Stuck;
            }
            if cnt < 3 {
                match first_colon_exec(t, ind, e) {
                    None => {
                        return ColorResult::Stuck;
                    },
                    Some(q) => match parse_uint_exec(t, ind, q, 255) {
                        Err(er) => {
                            return ColorResult::Bad(er);
                        },
                        Ok(v) => {
                            let v8 = v as u8;
                            c = if cnt == 0 {
                                (v8, c.1, c.2, c.3)
                            } else if cnt == 1 {
                                (c.0, v8, c.2, c.3)
                            } else {
                                (c.0, c.1, v8, c.3)
                            };
                            cnt = cnt + 1;
                        },
                    },
                }
            } else {
                match parse_uint_exec(t, ind, e, 255) {
                    Err(er) => {
                        return ColorResult::Bad(er);
                    },
                    Ok(v) => {
                        c = (c.0, c.1, c.2, v as u8);
                    },
                }
            }
        }
        ci = ci2;
        p = p + 1;
    }
    ColorResult::Read(c.0, c.1, c.2, c.3)
}


/// What a line of a settings file holds.
#[derive(PartialEq, Eq, Structural, Clone, Copy)]
pub enum Field {
    Version,
    AName,
    AColor,
    AView,
    AView2,
    AConverter,
    AReduction,
    AReduction2,
    DName,
    DColor,
    DView,
    DConverter,
    Duration,
}

/// The field on line `step` of a settings file and its channel.
pub open spec fn step_field(step: int) -> (Field, int) {
    if step == 0 {
        (Field::Version, 0)
    } else if step <= 7 * ACHANELS {
        let i = (step - 1) / 7;
        let f = (step - 1) % 7;
        (
            if f == 0 {
                Field::AName
            } else if f == 1 {
                Field::AColor
            } else if f == 2 {
                Field::AView
            } else if f == 3 {
                Field::AView2
            } else if f == 4 {
                Field::AConverter
            } else if f == 5 {
                Field::AReduction
            } else {
                Field::AReduction2
            },
            i,
        )
    } else if step <= 7 * ACHANELS + 4 * DCHANELS {
        let i = (step - 1 - 7 * ACHANELS) / 4;
        let f = (step - 1 - 7 * ACHANELS) % 4;
        (
            if f == 0 {
                Field::DName
            } else if f == 1 {
                Field::DColor
            } else if f == 2 {
                Field::DView
            } else {
                Field::DConverter
            },
            i,
        )
    } else {
        (Field::Duration, 0)
    }
}

/// Decimal digits of `i` (below 100).
pub open spec fn dec(i: int) -> Seq<u8> {
    if i < 10 {
        seq![(48 + i) as u8]
    } else {
        seq![(48 + i / 10) as u8, (48 + i % 10) as u8]
    }
}

/// The key a line must contain.
pub open spec fn key_of(f: Field, ch: int) -> Seq<u8> {
    match f {
        Field::Version => seq![86u8, 101u8, 114u8, 115u8, 105u8, 111u8, 110u8, 58u8],
        Field::AName | Field::DName => seq![78u8, 97u8, 109u8, 101u8] + dec(ch) + seq![58u8],
        Field::AColor | Field::DColor => seq![67u8, 111u8, 108u8, 111u8, 114u8, 32u8, 82u8, 71u8, 66u8, 65u8, 58u8],
        Field::AView => seq![86u8, 105u8, 101u8, 119u8, 105u8, 110u8, 99u8, 104u8, 97u8, 114u8, 116u8, 58u8],
        Field::AView2 => seq![86u8, 105u8, 101u8, 119u8, 105u8, 110u8, 99u8, 104u8, 97u8, 114u8, 116u8, 50u8, 58u8],
        Field::AConverter | Field::DConverter => seq![67u8, 111u8, 110u8, 118u8, 101u8, 114u8, 116u8, 101u8, 114u8, 58u8],
        Field::AReduction => seq![82u8, 101u8, 100u8, 117u8, 99u8, 116u8, 105u8, 111u8, 110u8, 58u8],
        Field::AReduction2 => seq![82u8, 101u8, 100u8, 117u8, 99u8, 116u8, 105u8, 111u8, 110u8, 50u8, 58u8],
        Field::DView => seq![86u8, 105u8, 101u8, 119u8, 105u8, 110u8, 68u8, 99u8, 104u8, 97u8, 114u8, 116u8, 58u8],
        Field::Duration => seq![68u8, 117u8, 114u8, 97u8, 116u8, 105u8, 111u8, 110u8, 58u8],
    }
}

/// Reading line `step` of the settings text `t`, which starts at `pos`.
pub open spec fn settings_step(t: Seq<u8>, pos: int, step: int) -> StepResult {
    let (f, ch) = step_field(step);
    match line_at(t, pos) {
        None => StepResult::Fail(SettingsError::Parser),
        Some(l) => {
            let (s, e, next) = l;
            if !contains(t, s, e, key_of(f, ch)) {
                StepResult::Fail(SettingsError::Parser)
            } else {
                match first_colon(t, s, e) {
                    None => StepResult::Fail(SettingsError::Parser),
                    Some(c) => {
                        let v0 = c + 1;
                        let val = t.subrange(v0, e);
                        let chu = ch as usize;
                        match f {
                            Field::Version => match parse_uint(val, u32::MAX as int) {
                                Err(er) => StepResult::Fail(SettingsError::Int(er)),
                                Ok(x) => if x != 1 {
                                    StepResult::Fail(SettingsError::VersionUnknown)
                                } else {
                                    StepResult::Item(SettingsItem::Version, next)
                                },
                            },
                            Field::AName => StepResult::Item(SettingsItem::AName(chu, v0 as usize, e as usize), next),
                            Field::DName => StepResult::Item(SettingsItem::DName(chu, v0 as usize, e as usize), next),
                            Field::AColor | Field::DColor => match color_scan(t, s, e, s, 0, 0, (0u8, 0u8, 0u8, 0u8)) {
                                ColorResult::Read(r, g, b, a) => StepResult::Item(
                                    if f == Field::AColor {
                                        SettingsItem::AColor(chu, r, g, b, a)
                                    } else {
                                        SettingsItem::DColor(chu, r, g, b, a)
                                    },
                                    next,
                                ),
                                ColorResult::Bad(er) => StepResult::Fail(SettingsError::Int(er)),
                                ColorResult::Stuck => StepResult::Stuck,
                            },
                            Field::AView | Field::AView2 | Field::DView => match parse_flag(val) {
                                None => StepResult::Fail(SettingsError::Bool),
                                Some(b) => StepResult::Item(
                                    if f == Field::AView {
                                        SettingsItem::AView(chu, b)
                                    } else if f == Field::AView2 {
                                        SettingsItem::AView2(chu, b)
                                    } else {
                                        SettingsItem::DView(chu, b)
                                    },
                                    next,
                                ),
                            },
                            Field::AConverter => StepResult::Item(SettingsItem::AConverter(chu, v0 as usize, e as usize), next),
                            Field::AReduction => StepResult::Item(SettingsItem::AReduction(chu, v0 as usize, e as usize), next),
                            Field::AReduction2 => StepResult::Item(SettingsItem::AReduction2(chu, v0 as usize, e as usize), next),
                            Field::DConverter => StepResult::Item(SettingsItem::DConverter(chu, v0 as usize, e as usize), next),
                            Field::Duration => match parse_uint(val, usize::MAX as int) {
                                Err(er) => StepResult::Fail(SettingsError::Int(er)),
                                Ok(x) => StepResult::Item(SettingsItem::Duration(x as usize), next),
                            },
                        }
                    },
                }
            }
        },
    }
}

/// Where an item read from a text of `n` bytes points: its channel exists
/// and the text it spans lies within the text.
pub open spec fn item_in(item: SettingsItem, n: int) -> bool {
    match item {
        SettingsItem::Version => true,
        SettingsItem::AName(i, a, b) => i < ACHANELS && a <= b <= n,
        SettingsItem::AColor(i, _, _, _, _) => i < ACHANELS,
        SettingsItem::AView(i, _) => i < ACHANELS,
        SettingsItem::AView2(i, _) => i < ACHANELS,
        SettingsItem::AConverter(i, a, b) => i < ACHANELS && a <= b <= n,
        SettingsItem::AReduction(i, a, b) => i < ACHANELS && a <= b <= n,
        SettingsItem::AReduction2(i, a, b) => i < ACHANELS && a <= b <= n,
        SettingsItem::DName(i, a, b) => i < DCHANELS && a <= b <= n,
        SettingsItem::DColor(i, _, _, _, _) => i < DCHANELS,
        SettingsItem::DView(i, _) => i < DCHANELS,
        SettingsItem::DConverter(i, a, b) => i < DCHANELS && a <= b <= n,
        SettingsItem::Duration(_) => true,
    }
}

/// An item read from a line points into the text, and the next line
/// starts within it.
pub proof fn lemma_step_item(t: Seq<u8>, pos: int, step: int)
    requires
        0 <= step < SETTINGS_LINES,
        t.len() <= usize::MAX,
    ensures
        settings_step(t, pos, step) matches StepResult::Item(item, next) ==> item_in(item, t.len() as int)
            && 0 <= next <= t.len(),
{
    lemma_first_nl_range(t, pos);
    match line_at(t, pos) {
        Some(l) => {
            lemma_first_colon_range(t, l.0, l.1);
        },
        None => {},
    }
}

fn field_exec(step: usize) -> (r: (Field, usize))
    requires
        step < SETTINGS_LINES,
    ensures
        (r.0, r.1 as int) == step_field(step as int),
        r.1 < DCHANELS,
{
    if step == 0 {
        (Field::Version, 0)
    } else if step <= 7 * ACHANELS {
        let i = (step - 1) / 7;
        let f = (step - 1) % 7;
        let field = if f == 0 {
            Field::AName
        } else if f == 1 {
            Field::AColor
        } else if f == 2 {
            Field::AView
        } else if f == 3 {
            Field::AView2
        } else if f == 4 {
            Field::AConverter
        } else if f == 5 {
            Field::AReduction
        } else {
            Field::AReduction2
        };
        (field, i)
    } else if step <= 7 * ACHANELS + 4 * DCHANELS {
        let i = (step - 1 - 7 * ACHANELS) / 4;
        let f = (step - 1 - 7 * ACHANELS) % 4;
        let field = if f == 0 {
            Field::DName
        } else if f == 1 {
            Field::DColor
        } else if f == 2 {
            Field::DView
        } else {
            Field::DConverter
        };
        (field, i)
    } else {
        (Field::Duration, 0)
    }
}

pub(crate) fn key_exec(f: Field, ch: usize) -> (r: Vec<u8>)
    requires
        ch < 100,
    ensures
        r@ == key_of(f, ch as int),
{
    match f {
        Field::Version => vec![86u8, 101u8, 114u8, 115u8, 105u8, 111u8, 110u8, 58u8],
        Field::AName | Field::DName => {
            let mut k: Vec<u8> = vec![78u8, 97u8, 109u8, 101u8];
            if ch < 10 {
                k.push(48u8 + ch as u8);
            } else {
                k.push(48u8 + (ch / 10) as u8);
                k.push(48u8 + (ch % 10) as u8);
            }
            k.push(58u8);
            assert(k@ =~= key_of(f, ch as int));
            k
        },
        Field::AColor | Field::DColor => vec![67u8, 111u8, 108u8, 111u8, 114u8, 32u8, 82u8, 71u8, 66u8, 65u8, 58u8],
        Field::AView => vec![86u8, 105u8, 101u8, 119u8, 105u8, 110u8, 99u8, 104u8, 97u8, 114u8, 116u8, 58u8],
        Field::AView2 => vec![86u8, 105u8, 101u8, 119u8, 105u8, 110u8, 99u8, 104u8, 97u8, 114u8, 116u8, 50u8, 58u8],
        Field::AConverter | Field::DConverter => vec![67u8, 111u8, 110u8, 118u8, 101u8, 114u8, 116u8, 101u8, 114u8, 58u8],
        Field::AReduction => vec![82u8, 101u8, 100u8, 117u8, 99u8, 116u8, 105u8, 111u8, 110u8, 58u8],
        Field::AReduction2 => vec![82u8, 101u8, 100u8, 117u8, 99u8, 116u8, 105u8, 111u8, 110u8, 50u8, 58u8],
        Field::DView => vec![86u8, 105u8, 101u8, 119u8, 105u8, 110u8, 68u8, 99u8, 104u8, 97u8, 114u8, 116u8, 58u8],
        Field::Duration => vec![68u8, 117u8, 114u8, 97u8, 116u8, 105u8, 111u8, 110u8, 58u8],
    }
}


enum StepOutcome {
    Item(SettingsItem, usize),
    Fail(SettingsError),
    Stuck,
}

/// The spec outcome of reading a line, as an executable one.
pub open spec fn outcome_matches(r: Result<(SettingsItem, usize), SettingsError>, sr: StepResult) -> bool {
    match sr {
        StepResult::Item(item, next) => r == Ok::<(SettingsItem, usize), SettingsError>((item, next as usize)),
        StepResult::Fail(er) => r == Err::<(SettingsItem, usize), SettingsError>(er),
        StepResult::Stuck => false,
    }
}

fn step_exec(t: &[u8], pos: usize, step: usize) -> (r: StepOutcome)
    requires
        step < SETTINGS_LINES,
    ensures
        match settings_step(t@, pos as int, step as int) {
            StepResult::Item(item, next) => r == StepOutcome::Item(item, next as usize) && next <= t@.len(),
            StepResult::Fail(er) => r == StepOutcome::Fail(er),
            StepResult::Stuck => r == StepOutcome::Stuck,
        },
{
    let (f, ch) = field_exec(step);
    let (s, e, next) = match next_line(t, pos) {
        None => {
            return StepOutcome::Fail(SettingsError::Parser);
        },
        Some(l) => l,
    };
    let key = key_exec(f, ch);
    if !contains_exec(t, s, e, &key) {
        return StepOutcome::Fail(SettingsError::Parser);
    }
    let c = match first_colon_exec(t, s, e) {
        None => {
            return StepOutcome::Fail(SettingsError::Parser);
        },
        Some(c) => c,
    };
    let v0: usize = c + 1;
    match f {
        Field::Version => match parse_uint_exec(t, v0, e, 4294967295u64) {
            Err(er) => StepOutcome::Fail(SettingsError::Int(er)),
            Ok(x) => if x != 1 {
                StepOutcome::Fail(SettingsError::VersionUnknown)
            } else {
                StepOutcome::Item(SettingsItem::Version, next)
            },
        },
        Field::AName => StepOutcome::Item(SettingsItem::AName(ch, v0, e), next),
        Field::DName => StepOutcome::Item(SettingsItem::DName(ch, v0, e), next),
        Field::AColor | Field::DColor => match color_exec(t, s, e) {
            ColorResult::Read(r, g, b, a) => StepOutcome::Item(
                if f == Field::AColor {
                    SettingsItem::AColor(ch, r, g, b, a)
                } else {
                    SettingsItem::DColor(ch, r, g, b, a)
                },
                next,
            ),
            ColorResult::Bad(er) => StepOutcome::Fail(SettingsError::Int(er)),
            ColorResult::Stuck => StepOutcome::Stuck,
        },
        Field::AView | Field::AView2 | Field::DView => match parse_flag_exec(t, v0, e) {
            None => StepOutcome::Fail(SettingsError::Bool),
            Some(b) => StepOutcome::Item(
                if f == Field::AView {
                    SettingsItem::AView(ch, b)
                } else if f == Field::AView2 {
                    SettingsItem::AView2(ch, b)
                } else {
                    SettingsItem::DView(ch, b)
                },
                next,
            ),
        },
        Field::AConverter => StepOutcome::Item(SettingsItem::AConverter(ch, v0, e), next),
        Field::AReduction => StepOutcome::Item(SettingsItem::AReduction(ch, v0, e), next),
        Field::AReduction2 => StepOutcome::Item(SettingsItem::AReduction2(ch, v0, e), next),
        Field::DConverter => StepOutcome::Item(SettingsItem::DConverter(ch, v0, e), next),
        Field::Duration => match parse_uint_exec(t, v0, e, usize::MAX as u64) {
            Err(er) => StepOutcome::Fail(SettingsError::Int(er)),
            Ok(x) => StepOutcome::Item(SettingsItem::Duration(x as usize), next),
        },
    }
}

/// Reads line `step` (counting from 0, of `SETTINGS_LINES`) of a settings
/// text, the line starting at byte `pos`: its value and where the next line
/// starts, or why the file is refused.
pub fn settings_next(text: &[u8], pos: usize, step: usize) -> (r: Result<(SettingsItem, usize), SettingsError>)
    requires
        step < SETTINGS_LINES,
        !(settings_step(text@, pos as int, step as int) is Stuck),
    ensures
        outcome_matches(r, settings_step(text@, pos as int, step as int)),
        r matches Ok((item, next)) ==> item_in(item, text@.len() as int) && next <= text@.len(),
{
    let _n = text.len();
    proof {
        lemma_step_item(text@, pos as int, step as int);
    }
    match step_exec(text, pos, step) {
        StepOutcome::Item(item, next) => Ok((item, next)),
        StepOutcome::Fail(er) => Err(er),
        StepOutcome::Stuck => Err(SettingsError::Parser),
    }
}

/// Tells whether `settings_next` may be called for this line.
pub fn settings_line_in_range(text: &[u8], pos: usize, step: usize) -> (r: bool)
    requires
        step < SETTINGS_LINES,
    ensures
        r == !(settings_step(text@, pos as int, step as int) is Stuck),
{
    match step_exec(text, pos, step) {
        StepOutcome::Stuck => false,
        _ => true,
    }
}

} // verus!
