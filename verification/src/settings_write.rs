//! Writing a settings file: the text that `settings::settings_next` reads.
//!
//! Every line ends with `\r\n`; after the version, the analog channels and
//! the digital channels comes the refresh period, and the file is padded
//! with `Nop` lines to 256 lines. The floating-point factors are handed in
//! as text.

use vstd::prelude::*;
use crate::rtmap::{ACHANELS, DCHANELS};
use crate::settings::{
    Field, key_of, key_exec, SettingsItem, SettingsError, StepResult, ColorResult, SETTINGS_LINES,
    settings_step, step_field, first_nl, line_at, contains, first_colon, digits_value, parse_uint,
    parse_flag, color_scan, set_comp, dec, item_in, lemma_step_item, settings_next, outcome_matches,
};

verus! {

/// What is written of an analog channel.
pub struct AChannelText {
    pub name: Vec<u8>,
    /// red, green, blue, alpha
    pub color: (u8, u8, u8, u8),
    pub view: bool,
    pub view2: bool,
    /// the factors, as decimal text
    pub converter: Vec<u8>,
    pub reduction: Vec<u8>,
    pub reduction2: Vec<u8>,
}

/// What is written of a digital channel.
pub struct DChannelText {
    pub name: Vec<u8>,
    pub color: (u8, u8, u8, u8),
    pub view: bool,
    pub converter: Vec<u8>,
}

/// Lines of a settings file, padding included.
pub const FILE_LINES: usize = 256;

/// The decimal digits of `n`, most significant first.
pub open spec fn decimal(n: nat) -> Seq<u8>
    decreases n,
{
    if n < 10 {
        seq![(48 + n) as u8]
    } else {
        decimal(n / 10).push((48 + n % 10) as u8)
    }
}

/// `true` or `false`.
pub open spec fn flag_text(b: bool) -> Seq<u8> {
    if b {
        seq![116u8, 114u8, 117u8, 101u8]
    } else {
        seq![102u8, 97u8, 108u8, 115u8, 101u8]
    }
}

/// `Name<ch>:`
pub open spec fn name_key(ch: nat) -> Seq<u8> {
    seq![78u8, 97u8, 109u8, 101u8] + decimal(ch) + seq![58u8]
}

/// `Color RGBA:r:g:b:a`
pub open spec fn colour_line(c: (u8, u8, u8, u8)) -> Seq<u8> {
    key_of(Field::AColor, 0) + decimal(c.0 as nat) + seq![58u8] + decimal(c.1 as nat) + seq![58u8]
        + decimal(c.2 as nat) + seq![58u8] + decimal(c.3 as nat)
}

/// `Nop`
pub open spec fn nop_line() -> Seq<u8> {
    seq![78u8, 111u8, 112u8]
}

/// The field written on line `k` of a file for `na` analog and `nd`
/// digital channels, and its channel.
pub open spec fn written_field(k: int, na: int, nd: int) -> (Field, int) {
    if k == 0 {
        (Field::Version, 0)
    } else if k <= 7 * na {
        let i = (k - 1) / 7;
        let f = (k - 1) % 7;
        (
            if f == 0 {
                Field::AName
            } else if f == 1 {
                Field::AColor
            } else if f == 2 {
                Field::AView
            } else if f == 3 {
                Field::AView2
            } else if f == 4 {
                Field::AConverter
            } else if f == 5 {
                Field::AReduction
            } else {
                Field::AReduction2
            },
            i,
        )
    } else if k <= 7 * na + 4 * nd {
        let i = (k - 1 - 7 * na) / 4;
        let f = (k - 1 - 7 * na) % 4;
        (
            if f == 0 {
                Field::DName
            } else if f == 1 {
                Field::DColor
            } else if f == 2 {
                Field::DView
            } else {
                Field::DConverter
            },
            i,
        )
    } else {
        (Field::Duration, 0)
    }
}

/// The text of the line holding field `f` of channel `ch` (without `\r\n`).
pub open spec fn field_line(
    f: Field,
    ch: int,
    achs: Seq<AChannelText>,
    dchs: Seq<DChannelText>,
    duration: usize,
) -> Seq<u8> {
    match f {
        Field::Version => key_of(Field::Version, 0) + seq![49u8],
        Field::AName => name_key(ch as nat) + achs[ch].name@,
        Field::AColor => colour_line(achs[ch].color),
        Field::AView => key_of(Field::AView, 0) + flag_text(achs[ch].view),
        Field::AView2 => key_of(Field::AView2, 0) + flag_text(achs[ch].view2),
        Field::AConverter => key_of(Field::AConverter, 0) + achs[ch].converter@,
        Field::AReduction => key_of(Field::AReduction, 0) + achs[ch].reduction@,
        Field::AReduction2 => key_of(Field::AReduction2, 0) + achs[ch].reduction2@,
        Field::DName => name_key(ch as nat) + dchs[ch].name@,
        Field::DColor => colour_line(dchs[ch].color),
        Field::DView => key_of(Field::DView, 0) + flag_text(dchs[ch].view),
        Field::DConverter => key_of(Field::DConverter, 0) + dchs[ch].converter@,
        Field::Duration => key_of(Field::Duration, 0) + decimal(duration as nat),
    }
}

/// Number of lines that carry a setting.
pub open spec fn setting_lines(na: int, nd: int) -> int {
    7 * na + 4 * nd + 2
}

/// All lines of the file, padding included.
pub open spec fn settings_lines(achs: Seq<AChannelText>, dchs: Seq<DChannelText>, duration: usize) -> Seq<Seq<u8>> {
    let count = setting_lines(achs.len() as int, dchs.len() as int);
    let total = if count < FILE_LINES { FILE_LINES as int } else { count };
    Seq::new(
        total as nat,
        |k: int|
            if k < count {
                let (f, ch) = written_field(k, achs.len() as int, dchs.len() as int);
                field_line(f, ch, achs, dchs, duration)
            } else {
                nop_line()
            },
    )
}

/// The lines, each followed by `\r\n`.
pub open spec fn joined(lines: Seq<Seq<u8>>) -> Seq<u8>
    decreases lines.len(),
{
    if lines.len() == 0 {
        Seq::empty()
    } else {
        joined(lines.drop_last()) + lines.last() + seq![13u8, 10u8]
    }
}

/// The settings file.
pub open spec fn settings_file(achs: Seq<AChannelText>, dchs: Seq<DChannelText>, duration: usize) -> Seq<u8> {
    joined(settings_lines(achs, dchs, duration))
}

/// Where line `k` starts.
pub open spec fn line_offset(lines: Seq<Seq<u8>>, k: int) -> int {
    joined(lines.take(k)).len() as int
}

proof fn lemma_joined_step(lines: Seq<Seq<u8>>, k: int)
    requires
        0 <= k < lines.len(),
    ensures
        joined(lines.take(k + 1)) == joined(lines.take(k)) + lines[k] + seq![13u8, 10u8],
{
    assert(lines.take(k + 1).drop_last() =~= lines.take(k));
}

fn push_all(out: &mut Vec<u8>, bytes: &[u8])
    ensures
        final(out)@ == old(out)@ + bytes@,
{
    let mut i: usize = 0;
    while i < bytes.len()
        invariant
            i <= bytes@.len(),
            out@ == old(out)@ + bytes@.take(i as int),
        decreases bytes@.len() - i,
    {
        out.push(bytes[i]);
        i = i + 1;
        assert(out@ =~= old(out)@ + bytes@.take(i as int));
    }
    assert(bytes@.take(i as int) =~= bytes@);
}

pub(crate) fn push_decimal(out: &mut Vec<u8>, n: u64)
    ensures
        final(out)@ == old(out)@ + decimal(n as nat),
    decreases n,
{
    if n >= 10 {
        push_decimal(out, n / 10);
        out.push(48u8 + (n % 10) as u8);
        assert(out@ =~= old(out)@ + decimal(n as nat));
    } else {
        out.push(48u8 + n as u8);
        assert(out@ =~= old(out)@ + decimal(n as nat));
    }
}

fn colour_exec(c: (u8, u8, u8, u8)) -> (r: Vec<u8>)
    ensures
        r@ == colour_line(c),
{
    let mut r = key_exec(Field::AColor, 0);
    push_decimal(&mut r, c.0 as u64);
    r.push(58u8);
    push_decimal(&mut r, c.1 as u64);
    r.push(58u8);
    push_decimal(&mut r, c.2 as u64);
    r.push(58u8);
    push_decimal(&mut r, c.3 as u64);
    assert(r@ =~= colour_line(c));
    r
}

fn flag_exec(out: &mut Vec<u8>, b: bool)
    ensures
        final(out)@ == old(out)@ + flag_text(b),
{
    if b {
        push_all(out, &[116u8, 114u8, 117u8, 101u8]);
    } else {
        push_all(out, &[102u8, 97u8, 108u8, 115u8, 101u8]);
    }
    assert(final(out)@ =~= old(out)@ + flag_text(b));
}

fn name_exec(ch: usize, name: &Vec<u8>) -> (r: Vec<u8>)
    ensures
        r@ == name_key(ch as nat) + name@,
{
    let mut r: Vec<u8> = vec![78u8, 97u8, 109u8, 101u8];
    push_decimal(&mut r, ch as u64);
    r.push(58u8);
    push_all(&mut r, name.as_slice());
    assert(r@ =~= name_key(ch as nat) + name@);
    r
}

fn text_exec(f: Field, text: &Vec<u8>) -> (r: Vec<u8>)
    ensures
        r@ == key_of(f, 0) + text@,
{
    let mut r = key_exec(f, 0);
    push_all(&mut r, text.as_slice());
    r
}

fn flag_line_exec(f: Field, b: bool) -> (r: Vec<u8>)
    ensures
        r@ == key_of(f, 0) + flag_text(b),
{
    let mut r = key_exec(f, 0);
    flag_exec(&mut r, b);
    r
}

fn field_line_exec(
    f: Field,
    ch: usize,
    achs: &Vec<AChannelText>,
    dchs: &Vec<DChannelText>,
    duration: usize,
) -> (r: Vec<u8>)
    requires
        (f == Field::AName || f == Field::AColor || f == Field::AView || f == Field::AView2
            || f == Field::AConverter || f == Field::AReduction || f == Field::AReduction2)
            ==> ch < achs@.len(),
        (f == Field::DName || f == Field::DColor || f == Field::DView || f == Field::DConverter)
            ==> ch < dchs@.len(),
    ensures
        r@ == field_line(f, ch as int, achs@, dchs@, duration),
{
    match f {
        Field::Version => {
            let mut r = key_exec(Field::Version, 0);
            r.push(49u8);
            r
        },
        Field::AName => name_exec(ch, &achs[ch].name),
        Field::AColor => colour_exec(achs[ch].color),
        Field::AView => flag_line_exec(Field::AView, achs[ch].view),
        Field::AView2 => flag_line_exec(Field::AView2, achs[ch].view2),
        Field::AConverter => text_exec(Field::AConverter, &achs[ch].converter),
        Field::AReduction => text_exec(Field::AReduction, &achs[ch].reduction),
        Field::AReduction2 => text_exec(Field::AReduction2, &achs[ch].reduction2),
        Field::DName => name_exec(ch, &dchs[ch].name),
        Field::DColor => colour_exec(dchs[ch].color),
        Field::DView => flag_line_exec(Field::DView, dchs[ch].view),
        Field::DConverter => text_exec(Field::DConverter, &dchs[ch].converter),
        Field::Duration => {
            let mut r = key_exec(Field::Duration, 0);
            push_decimal(&mut r, duration as u64);
            r
        },
    }
}

fn written_field_exec(k: usize, na: usize, nd: usize) -> (r: (Field, usize))
    requires
        k < setting_lines(na as int, nd as int),
        setting_lines(na as int, nd as int) <= usize::MAX,
    ensures
        (r.0, r.1 as int) == written_field(k as int, na as int, nd as int),
{
    if k == 0 {
        (Field::Version, 0)
    } else if k <= 7 * na {
        let i = (k - 1) / 7;
        let f = (k - 1) % 7;
        let field = if f == 0 {
            Field::AName
        } else if f == 1 {
            Field::AColor
        } else if f == 2 {
            Field::AView
        } else if f == 3 {
            Field::AView2
        } else if f == 4 {
            Field::AConverter
        } else if f == 5 {
            Field::AReduction
        } else {
            Field::AReduction2
        };
        (field, i)
    } else if k <= 7 * na + 4 * nd {
        let i = (k - 1 - 7 * na) / 4;
        let f = (k - 1 - 7 * na) % 4;
        let field = if f == 0 {
            Field::DName
        } else if f == 1 {
            Field::DColor
        } else if f == 2 {
            Field::DView
        } else {
            Field::DConverter
        };
        (field, i)
    } else {
        (Field::Duration, 0)
    }
}

/// The settings file for these channels and refresh period: one line per
/// setting, each ended by `\r\n`, padded with `Nop` lines to 256 lines.
pub fn settings_text(achs: &Vec<AChannelText>, dchs: &Vec<DChannelText>, duration: usize) -> (r: Vec<u8>)
    requires
        setting_lines(achs@.len() as int, dchs@.len() as int) <= usize::MAX,
    ensures
        r@ == settings_file(achs@, dchs@, duration),
{
    let na = achs.len();
    let nd = dchs.len();
    let count: usize = 7 * na + 4 * nd + 2;
    let total: usize = if count < FILE_LINES { FILE_LINES } else { count };
    let ghost lines = settings_lines(achs@, dchs@, duration);
    let mut out: Vec<u8> = Vec::new();
    let mut k: usize = 0;
    assert(lines.take(0) =~= Seq::<Seq<u8>>::empty());
    while k < total
        invariant
            na == achs@.len(),
            nd == dchs@.len(),
            count == setting_lines(na as int, nd as int),
            count <= usize::MAX,
            total == lines.len(),
            lines == settings_lines(achs@, dchs@, duration),
            k <= total,
            out@ == joined(lines.take(k as int)),
        decreases total - k,
    {
        let line: Vec<u8> = if k < count {
            let (f, ch) = written_field_exec(k, na, nd);
            proof {
                assert(0 <= (k - 1) / 7 < na || !(1 <= k <= 7 * na));
            }
            field_line_exec(f, ch, achs, dchs, duration)
        } else {
            vec![78u8, 111u8, 112u8]
        };
        assert(line@ == lines[k as int]);
        push_all(&mut out, line.as_slice());
        out.push(13u8);
        out.push(10u8);
        proof {
            lemma_joined_step(lines, k as int);
            assert(out@ =~= joined(lines.take(k as int)) + lines[k as int] + seq![13u8, 10u8]);
        }
        k = k + 1;
    }
    assert(lines.take(total as int) =~= lines);
    out
}


// ---------------------------------------------------------------------------
// Reading back what was written.

/// No byte of `b` is a line feed.
pub open spec fn one_line(b: Seq<u8>) -> bool {
    forall|j: int| 0 <= j < b.len() ==> b[j] != 10u8
}

/// The names and factor texts fit on one line each.
pub open spec fn texts_on_one_line(achs: Seq<AChannelText>, dchs: Seq<DChannelText>) -> bool {
    &&& forall|i: int|
        0 <= i < achs.len() ==> {
            &&& one_line(#[trigger] achs[i].name@)
            &&& one_line(achs[i].converter@)
            &&& one_line(achs[i].reduction@)
            &&& one_line(achs[i].reduction2@)
        }
    &&& forall|i: int| 0 <= i < dchs.len() ==> one_line(#[trigger] dchs[i].name@) && one_line(dchs[i].converter@)
}

/// `item`, read from `t`, is the value written for `field` of channel `ch`:
/// a text by the bytes it spans in `t`, anything else by its value.
pub open spec fn written_value(
    t: Seq<u8>,
    item: SettingsItem,
    field: (Field, int),
    achs: Seq<AChannelText>,
    dchs: Seq<DChannelText>,
    duration: usize,
) -> bool {
    let (f, ch) = field;
    match item {
        SettingsItem::Version => f == Field::Version,
        SettingsItem::AName(i, a, b) => f == Field::AName && i == ch && a <= b <= t.len() && t.subrange(
            a as int,
            b as int,
        ) == achs[ch].name@,
        SettingsItem::AColor(i, r, g, b, a) => f == Field::AColor && i == ch && (r, g, b, a) == achs[ch].color,
        SettingsItem::AView(i, v) => f == Field::AView && i == ch && v == achs[ch].view,
        SettingsItem::AView2(i, v) => f == Field::AView2 && i == ch && v == achs[ch].view2,
        SettingsItem::AConverter(i, a, b) => f == Field::AConverter && i == ch && a <= b <= t.len()
            && t.subrange(a as int, b as int) == achs[ch].converter@,
        SettingsItem::AReduction(i, a, b) => f == Field::AReduction && i == ch && a <= b <= t.len()
            && t.subrange(a as int, b as int) == achs[ch].reduction@,
        SettingsItem::AReduction2(i, a, b) => f == Field::AReduction2 && i == ch && a <= b <= t.len()
            && t.subrange(a as int, b as int) == achs[ch].reduction2@,
        SettingsItem::DName(i, a, b) => f == Field::DName && i == ch && a <= b <= t.len() && t.subrange(
            a as int,
            b as int,
        ) == dchs[ch].name@,
        SettingsItem::DColor(i, r, g, b, a) => f == Field::DColor && i == ch && (r, g, b, a) == dchs[ch].color,
        SettingsItem::DView(i, v) => f == Field::DView && i == ch && v == dchs[ch].view,
        SettingsItem::DConverter(i, a, b) => f == Field::DConverter && i == ch && a <= b <= t.len()
            && t.subrange(a as int, b as int) == dchs[ch].converter@,
        SettingsItem::Duration(d) => f == Field::Duration && d == duration,
    }
}

proof fn lemma_joined_prefix(lines: Seq<Seq<u8>>, m: int)
    requires
        0 <= m <= lines.len(),
    ensures
        joined(lines.take(m)).len() <= joined(lines).len(),
        joined(lines).subrange(0, joined(lines.take(m)).len() as int) == joined(lines.take(m)),
    decreases lines.len(),
{
    if m == lines.len() {
        assert(lines.take(m) =~= lines);
    } else {
        let d = lines.drop_last();
        assert(lines.take(m) =~= d.take(m));
        lemma_joined_prefix(d, m);
        let a = joined(d);
        let b = joined(d.take(m));
        assert(joined(lines) == a + lines.last() + seq![13u8, 10u8]);
        assert(joined(lines).subrange(0, b.len() as int) =~= a.subrange(0, b.len() as int));
    }
}

/// Line `k` stands in the file at its offset, followed by `\r\n`.
proof fn lemma_line_in_file(lines: Seq<Seq<u8>>, k: int)
    requires
        0 <= k < lines.len(),
    ensures
        ({
            let t = joined(lines);
            let s = line_offset(lines, k);
            let l = lines[k];
            &&& 0 <= s
            &&& line_offset(lines, k + 1) == s + l.len() + 2
            &&& s + l.len() + 2 <= t.len()
            &&& t.subrange(s, s + l.len()) == l
            &&& t[s + l.len()] == 13u8
            &&& t[s + l.len() + 1] == 10u8
        }),
{
    lemma_joined_step(lines, k);
    lemma_joined_prefix(lines, k + 1);
    let t = joined(lines);
    let p = joined(lines.take(k));
    let q = joined(lines.take(k + 1));
    let l = lines[k];
    let pl = p.len() as int;
    let ll = l.len() as int;
    assert(q == p + l + seq![13u8, 10u8]);
    assert(t.subrange(0, q.len() as int) == q);
    assert(t.subrange(pl, pl + ll) =~= l) by {
        assert forall|j: int| 0 <= j < ll implies t[pl + j] == l[j] by {
            assert(t.subrange(0, q.len() as int)[pl + j] == q[pl + j]);
        }
    }
    assert(t.subrange(0, q.len() as int)[pl + ll] == q[pl + ll]);
    assert(t.subrange(0, q.len() as int)[pl + ll + 1] == q[pl + ll + 1]);
}

proof fn lemma_first_nl_at(t: Seq<u8>, i: int, q: int)
    requires
        0 <= i <= q < t.len(),
        t[q] == 10u8,
        forall|j: int| i <= j < q ==> t[j] != 10u8,
    ensures
        first_nl(t, i) == Some(q),
    decreases q - i,
{
    if i < q {
        lemma_first_nl_at(t, i + 1, q);
    }
}

proof fn lemma_first_colon_at(t: Seq<u8>, i: int, c: int, e: int)
    requires
        0 <= i <= c < e <= t.len(),
        t[c] == 58u8,
        forall|j: int| i <= j < c ==> t[j] != 58u8,
    ensures
        first_colon(t, i, e) == Some(c),
    decreases c - i,
{
    if i < c {
        lemma_first_colon_at(t, i + 1, c, e);
    }
}

/// A key: ASCII text without a line feed that ends with its only `:`.
pub open spec fn is_key(key: Seq<u8>) -> bool {
    &&& key.len() >= 1
    &&& key.last() == 58u8
    &&& forall|j: int| 0 <= j < key.len() - 1 ==> key[j] != 58u8 && key[j] != 10u8 && key[j] < 128
}

proof fn lemma_decimal_digits(n: nat)
    ensures
        decimal(n).len() >= 1,
        forall|j: int| 0 <= j < decimal(n).len() ==> 48 <= #[trigger] decimal(n)[j] <= 57,
    decreases n,
{
    if n >= 10 {
        lemma_decimal_digits(n / 10);
    }
}

proof fn lemma_keys(ch: nat)
    ensures
        is_key(key_of(Field::Version, 0)),
        is_key(key_of(Field::AColor, 0)),
        is_key(key_of(Field::AView, 0)),
        is_key(key_of(Field::AView2, 0)),
        is_key(key_of(Field::AConverter, 0)),
        is_key(key_of(Field::AReduction, 0)),
        is_key(key_of(Field::AReduction2, 0)),
        is_key(key_of(Field::DView, 0)),
        is_key(key_of(Field::Duration, 0)),
        is_key(name_key(ch)),
        key_of(Field::AColor, 0).len() == 11,
        ch < 100 ==> name_key(ch) == key_of(Field::AName, ch as int),
        ch < 100 ==> name_key(ch) == key_of(Field::DName, ch as int),
{
    lemma_decimal_digits(ch);
    let k = name_key(ch);
    let d = decimal(ch);
    assert forall|j: int| 0 <= j < k.len() - 1 implies k[j] != 58u8 && k[j] != 10u8 && k[j] < 128 by {
        if j >= 4 {
            assert(k[j] == d[j - 4]);
        }
    }
    if ch < 100 {
        if ch >= 10 {
            assert(decimal(ch / 10) == seq![(48 + ch / 10) as u8]);
        }
        assert(decimal(ch) =~= dec(ch as int));
    }
}

proof fn lemma_digits_shift(p: Seq<u8>, c: Seq<u8>, j: int, acc: int, max: int)
    requires
        0 <= j <= c.len(),
    ensures
        digits_value(p + c, p.len() + j, acc, max) == digits_value(c, j, acc, max),
    decreases c.len() - j,
{
    if j < c.len() {
        assert((p + c)[p.len() + j] == c[j]);
        lemma_digits_shift(p, c, j + 1, acc * 10 + (c[j] - 48), max);
    }
}

proof fn lemma_digits_concat(b: Seq<u8>, c: Seq<u8>, i: int, acc: int, max: int)
    requires
        0 <= i <= b.len(),
        digits_value(b, i, acc, max) is Ok,
    ensures
        digits_value(b + c, i, acc, max) == digits_value(c, 0, digits_value(b, i, acc, max)->Ok_0, max),
    decreases b.len() - i,
{
    if i < b.len() {
        assert((b + c)[i] == b[i]);
        lemma_digits_concat(b, c, i + 1, acc * 10 + (b[i] - 48), max);
    } else {
        lemma_digits_shift(b, c, 0, acc, max);
    }
}

/// The digits of `n` are read back as `n`.
proof fn lemma_decimal_value(n: nat, max: int)
    requires
        n <= max,
    ensures
        parse_uint(decimal(n), max) == Ok::<int, crate::settings::IntError>(n as int),
    decreases n,
{
    lemma_decimal_digits(n);
    if n < 10 {
        let b = decimal(n);
        assert(digits_value(b, 1, n as int, max) == Ok::<int, crate::settings::IntError>(n as int));
    } else {
        lemma_decimal_value(n / 10, max);
        lemma_decimal_digits(n / 10);
        let b = decimal(n / 10);
        let c = seq![(48 + n % 10) as u8];
        assert(decimal(n) =~= b + c);
        assert(b[0] != 43u8);
        lemma_digits_concat(b, c, 0, 0, max);
        assert(digits_value(c, 1, n as int, max) == Ok::<int, crate::settings::IntError>(n as int));
    }
}

/// What reading a line `key + v`, written at `s` and ended by `\r\n`, sees.
proof fn lemma_line_read(t: Seq<u8>, s: int, key: Seq<u8>, v: Seq<u8>)
    requires
        0 <= s,
        s + key.len() + v.len() + 2 <= t.len(),
        t.subrange(s, s + key.len() + v.len()) == key + v,
        t[s + key.len() + v.len()] == 13u8,
        t[s + key.len() + v.len() + 1] == 10u8,
        is_key(key),
        one_line(v),
    ensures
        line_at(t, s) == Some((s, s + key.len() + v.len(), s + key.len() + v.len() + 2)),
        contains(t, s, s + key.len() + v.len(), key),
        first_colon(t, s, s + key.len() + v.len()) == Some(s + key.len() - 1),
        t.subrange(s + key.len(), s + key.len() + v.len()) == v,
{
    let l = key + v;
    let e = s + l.len();
    assert forall|j: int| s <= j < e + 1 implies t[j] != 10u8 by {
        if j < e {
            assert(t.subrange(s, e)[j - s] == t[j]);
            if j - s < key.len() - 1 {
            } else if j - s == key.len() - 1 {
                assert(l[j - s] == key.last());
            } else {
                assert(l[j - s] == v[j - s - key.len()]);
            }
        }
    }
    lemma_first_nl_at(t, s, e + 1);
    assert(t.subrange(s, s + key.len()) =~= key) by {
        assert forall|j: int| 0 <= j < key.len() implies t[s + j] == key[j] by {
            assert(t.subrange(s, e)[j] == t[s + j]);
            assert(l[j] == key[j]);
        }
    }
    assert(contains(t, s, e, key)) by {
        assert(s <= s && s + key.len() <= e && t.subrange(s, s + key.len()) == key);
    }
    assert forall|j: int| s <= j < s + key.len() - 1 implies t[j] != 58u8 by {
        assert(t.subrange(s, s + key.len())[j - s] == t[j]);
    }
    assert(t[s + key.len() - 1] == 58u8) by {
        assert(t.subrange(s, s + key.len())[key.len() - 1] == t[s + key.len() - 1]);
    }
    lemma_first_colon_at(t, s, s + key.len() - 1, e);
    assert(t.subrange(s + key.len(), e) =~= v) by {
        assert forall|j: int| 0 <= j < v.len() implies t[s + key.len() + j] == v[j] by {
            assert(t.subrange(s, e)[key.len() + j] == t[s + key.len() + j]);
            assert(l[key.len() + j] == v[j]);
        }
    }
}


proof fn lemma_colour_skip(t: Seq<u8>, s: int, e: int, p: int, q: int, ci: int, cnt: int, c: (u8, u8, u8, u8))
    requires
        s <= p <= q <= e <= t.len(),
        forall|j: int| p <= j < q ==> t[j] != 58u8 && t[j] < 128,
    ensures
        color_scan(t, s, e, p, ci, cnt, c) == color_scan(t, s, e, q, ci + (q - p), cnt, c),
    decreases q - p,
{
    if p < q {
        lemma_colour_skip(t, s, e, p + 1, q, ci + 1, cnt, c);
    }
}

proof fn lemma_split(t: Seq<u8>, s: int, a: Seq<u8>, b: Seq<u8>)
    requires
        0 <= s,
        s + a.len() + b.len() <= t.len(),
        t.subrange(s, s + a.len() + b.len()) == a + b,
    ensures
        t.subrange(s, s + a.len()) == a,
        t.subrange(s + a.len(), s + a.len() + b.len()) == b,
{
    let w = t.subrange(s, s + a.len() + b.len());
    assert(t.subrange(s, s + a.len()) =~= a) by {
        assert forall|j: int| 0 <= j < a.len() implies t[s + j] == a[j] by {
            assert(w[j] == t[s + j]);
            assert((a + b)[j] == a[j]);
        }
    }
    assert(t.subrange(s + a.len(), s + a.len() + b.len()) =~= b) by {
        assert forall|j: int| 0 <= j < b.len() implies t[s + a.len() + j] == b[j] by {
            assert(w[a.len() + j] == t[s + a.len() + j]);
            assert((a + b)[a.len() + j] == b[j]);
        }
    }
}

proof fn lemma_digit_run(t: Seq<u8>, a: int, n: nat)
    requires
        0 <= a,
        a + decimal(n).len() <= t.len(),
        t.subrange(a, a + decimal(n).len()) == decimal(n),
    ensures
        forall|j: int| a <= j < a + decimal(n).len() ==> t[j] != 58u8 && t[j] < 128,
        decimal(n).len() >= 1,
{
    lemma_decimal_digits(n);
    assert forall|j: int| a <= j < a + decimal(n).len() implies t[j] != 58u8 && t[j] < 128 by {
        assert(t.subrange(a, a + decimal(n).len())[j - a] == t[j]);
    }
}

/// Reading one of the first three components: from its `:` to the next.
proof fn lemma_colour_field(t: Seq<u8>, s: int, e: int, p: int, cnt: int, cc: (u8, u8, u8, u8), v: u8)
    requires
        0 <= s <= p,
        p + 1 + decimal(v as nat).len() < e <= t.len(),
        t[p] == 58u8,
        t.subrange(p + 1, p + 1 + decimal(v as nat).len()) == decimal(v as nat),
        t[p + 1 + decimal(v as nat).len()] == 58u8,
        0 <= cnt < 3,
    ensures
        color_scan(t, s, e, p, p - s, cnt, cc) == color_scan(
            t,
            s,
            e,
            p + 1 + decimal(v as nat).len(),
            p + 1 + decimal(v as nat).len() - s,
            cnt + 1,
            set_comp(cc, cnt, v),
        ),
{
    let q = p + 1 + decimal(v as nat).len();
    lemma_digit_run(t, p + 1, v as nat);
    lemma_decimal_value(v as nat, 255);
    lemma_first_colon_at(t, p + 1, q, e);
    assert(color_scan(t, s, e, p, p - s, cnt, cc) == color_scan(t, s, e, p + 1, p + 1 - s, cnt + 1, set_comp(cc, cnt, v)));
    lemma_colour_skip(t, s, e, p + 1, q, p + 1 - s, cnt + 1, set_comp(cc, cnt, v));
}

/// Reading the last component, up to the end of the line.
proof fn lemma_colour_last(t: Seq<u8>, s: int, e: int, p: int, cc: (u8, u8, u8, u8), v: u8)
    requires
        0 <= s <= p,
        p + 1 + decimal(v as nat).len() == e <= t.len(),
        t[p] == 58u8,
        t.subrange(p + 1, e) == decimal(v as nat),
    ensures
        color_scan(t, s, e, p, p - s, 3, cc) == ColorResult::Read(cc.0, cc.1, cc.2, v),
{
    lemma_digit_run(t, p + 1, v as nat);
    lemma_decimal_value(v as nat, 255);
    assert(color_scan(t, s, e, p, p - s, 3, cc) == color_scan(t, s, e, p + 1, p + 1 - s, 3, set_comp(cc, 3, v)));
    lemma_colour_skip(t, s, e, p + 1, e, p + 1 - s, 3, set_comp(cc, 3, v));
}

/// A colour line as written is read back as its colour.
proof fn lemma_colour_read(t: Seq<u8>, s: int, c: (u8, u8, u8, u8))
    requires
        0 <= s,
        s + colour_line(c).len() <= t.len(),
        t.subrange(s, s + colour_line(c).len()) == colour_line(c),
    ensures
        color_scan(t, s, s + colour_line(c).len(), s, 0, 0, (0u8, 0u8, 0u8, 0u8)) == ColorResult::Read(
            c.0,
            c.1,
            c.2,
            c.3,
        ),
{
    let k = key_of(Field::AColor, 0);
    let col = seq![58u8];
    let d0 = decimal(c.0 as nat);
    let d1 = decimal(c.1 as nat);
    let d2 = decimal(c.2 as nat);
    let d3 = decimal(c.3 as nat);
    lemma_keys(0);
    let kp = seq![67u8, 111u8, 108u8, 111u8, 114u8, 32u8, 82u8, 71u8, 66u8, 65u8];
    assert(k =~= kp + col);
    let p1 = k + d0;
    let p2 = p1 + col + d1;
    let p3 = p2 + col + d2;
    let w = colour_line(c);
    let e = s + w.len();
    assert(w == p3 + col + d3);
    lemma_split(t, s, p3 + col, d3);
    lemma_split(t, s, p3, col);
    lemma_split(t, s, p2 + col, d2);
    lemma_split(t, s, p2, col);
    lemma_split(t, s, p1 + col, d1);
    lemma_split(t, s, p1, col);
    lemma_split(t, s, k, d0);
    lemma_split(t, s, kp, col);
    let q1 = s + p1.len();
    let q2 = s + p2.len();
    let q3 = s + p3.len();
    assert(t[s + 10] == 58u8) by {
        assert(t.subrange(s + kp.len(), s + kp.len() + col.len())[0] == t[s + 10]);
    }
    assert(t[q1] == 58u8) by {
        assert(t.subrange(q1, q1 + 1)[0] == t[q1]);
    }
    assert(t[q2] == 58u8) by {
        assert(t.subrange(q2, q2 + 1)[0] == t[q2]);
    }
    assert(t[q3] == 58u8) by {
        assert(t.subrange(q3, q3 + 1)[0] == t[q3]);
    }
    assert forall|j: int| s <= j < s + 10 implies t[j] != 58u8 && t[j] < 128 by {
        assert(t.subrange(s, s + kp.len())[j - s] == t[j]);
        assert(k[j - s] == kp[j - s]);
    }
    lemma_digit_run(t, q3 + 1, c.3 as nat);
    let z = (0u8, 0u8, 0u8, 0u8);
    let c1 = set_comp(z, 0, c.0);
    let c2 = set_comp(c1, 1, c.1);
    let c3 = set_comp(c2, 2, c.2);
    lemma_colour_skip(t, s, e, s, s + 10, 0, 0, z);
    lemma_colour_field(t, s, e, s + 10, 0, z, c.0);
    lemma_colour_field(t, s, e, q1, 1, c1, c.1);
    lemma_colour_field(t, s, e, q2, 2, c2, c.2);
    lemma_colour_last(t, s, e, q3, c3, c.3);
}

/// Line `l` stands in `t` at `s`, followed by `\r\n`.
pub open spec fn placed(t: Seq<u8>, s: int, l: Seq<u8>) -> bool {
    &&& 0 <= s
    &&& s + l.len() + 2 <= t.len()
    &&& t.subrange(s, s + l.len()) == l
    &&& t[s + l.len()] == 13u8
    &&& t[s + l.len() + 1] == 10u8
}

/// When line `k` of a written file is read back: the channels are as many
/// as a settings file holds, the names and factor texts fit on one line
/// each, and the file's length fits in `usize`.
pub open spec fn read_back_assumptions(
    achs: Seq<AChannelText>,
    dchs: Seq<DChannelText>,
    duration: usize,
    k: int,
) -> bool {
    &&& achs.len() == ACHANELS
    &&& dchs.len() == DCHANELS
    &&& 0 <= k < SETTINGS_LINES
    &&& texts_on_one_line(achs, dchs)
    &&& settings_file(achs, dchs, duration).len() <= usize::MAX
}

/// What reading line `k` of a written file gives.
pub open spec fn read_back(achs: Seq<AChannelText>, dchs: Seq<DChannelText>, duration: usize, k: int) -> bool {
    let lines = settings_lines(achs, dchs, duration);
    let t = joined(lines);
    settings_step(t, line_offset(lines, k), k) matches StepResult::Item(item, next) && next == line_offset(
        lines,
        k + 1,
    ) && written_value(t, item, step_field(k), achs, dchs, duration)
}

proof fn lemma_setup(achs: Seq<AChannelText>, dchs: Seq<DChannelText>, duration: usize, k: int)
    requires
        read_back_assumptions(achs, dchs, duration, k),
    ensures
        ({
            let lines = settings_lines(achs, dchs, duration);
            let t = joined(lines);
            let s = line_offset(lines, k);
            let (f, ch) = step_field(k);
            &&& placed(t, s, lines[k])
            &&& line_offset(lines, k + 1) == s + lines[k].len() + 2
            &&& lines[k] == field_line(f, ch, achs, dchs, duration)
            &&& 0 <= ch < DCHANELS
            &&& t.len() <= usize::MAX
            &&& (f == Field::AName || f == Field::AColor || f == Field::AView || f == Field::AView2
                || f == Field::AConverter || f == Field::AReduction || f == Field::AReduction2)
                ==> ch < ACHANELS && one_line(achs[ch].name@) && one_line(achs[ch].converter@)
                && one_line(achs[ch].reduction@) && one_line(achs[ch].reduction2@)
            &&& (f == Field::DName || f == Field::DColor || f == Field::DView || f == Field::DConverter)
                ==> one_line(dchs[ch].name@) && one_line(dchs[ch].converter@)
            &&& is_key(name_key(ch as nat))
            &&& name_key(ch as nat) == key_of(Field::AName, ch)
        }),
{
    let lines = settings_lines(achs, dchs, duration);
    lemma_line_in_file(lines, k);
    let (f, ch) = step_field(k);
    assert(written_field(k, ACHANELS as int, DCHANELS as int) == step_field(k));
    lemma_keys(ch as nat);
    if 1 <= k <= 7 * ACHANELS {
        assert(0 <= ch < ACHANELS);
        let a = achs[ch];
        assert(one_line(a.name@));
    } else if k <= 7 * ACHANELS + 4 * DCHANELS {
        assert(0 <= ch < DCHANELS);
        let d = dchs[ch];
        assert(one_line(d.name@));
    }
}

proof fn lemma_flags()
    ensures
        parse_flag(flag_text(true)) == Some(true),
        parse_flag(flag_text(false)) == Some(false),
        one_line(flag_text(true)),
        one_line(flag_text(false)),
{
    assert(flag_text(false) != seq![116u8, 114u8, 117u8, 101u8]) by {
        assert(flag_text(false).len() == 5);
    }
}

proof fn lemma_read_back_version(achs: Seq<AChannelText>, dchs: Seq<DChannelText>, duration: usize, k: int)
    requires
        read_back_assumptions(achs, dchs, duration, k),
        step_field(k).0 == Field::Version,
    ensures
        read_back(achs, dchs, duration, k),
{
    lemma_setup(achs, dchs, duration, k);
    let lines = settings_lines(achs, dchs, duration);
    let v = seq![49u8];
    lemma_keys(0);
    lemma_line_read(joined(lines), line_offset(lines, k), key_of(Field::Version, 0), v);
    lemma_decimal_value(1, u32::MAX as int);
    assert(decimal(1) == v);
}

#[verifier::spinoff_prover]
#[verifier::rlimit(40)]
proof fn lemma_read_back_name(achs: Seq<AChannelText>, dchs: Seq<DChannelText>, duration: usize, k: int)
    requires
        read_back_assumptions(achs, dchs, duration, k),
        step_field(k).0 == Field::AName || step_field(k).0 == Field::DName,
    ensures
        read_back(achs, dchs, duration, k),
{
    lemma_setup(achs, dchs, duration, k);
    let lines = settings_lines(achs, dchs, duration);
    let (f, ch) = step_field(k);
    let v = if f == Field::AName { achs[ch].name@ } else { dchs[ch].name@ };
    lemma_line_read(joined(lines), line_offset(lines, k), name_key(ch as nat), v);
}

#[verifier::spinoff_prover]
#[verifier::rlimit(40)]
proof fn lemma_read_back_text(achs: Seq<AChannelText>, dchs: Seq<DChannelText>, duration: usize, k: int)
    requires
        read_back_assumptions(achs, dchs, duration, k),
        step_field(k).0 == Field::AConverter || step_field(k).0 == Field::AReduction || step_field(k).0
            == Field::AReduction2 || step_field(k).0 == Field::DConverter,
    ensures
        read_back(achs, dchs, duration, k),
{
    lemma_setup(achs, dchs, duration, k);
    let lines = settings_lines(achs, dchs, duration);
    let (f, ch) = step_field(k);
    lemma_keys(0);
    let v = match f {
        Field::AConverter => achs[ch].converter@,
        Field::AReduction => achs[ch].reduction@,
        Field::AReduction2 => achs[ch].reduction2@,
        _ => dchs[ch].converter@,
    };
    lemma_line_read(joined(lines), line_offset(lines, k), key_of(f, 0), v);
}

#[verifier::spinoff_prover]
#[verifier::rlimit(40)]
proof fn lemma_read_back_flag(achs: Seq<AChannelText>, dchs: Seq<DChannelText>, duration: usize, k: int)
    requires
        read_back_assumptions(achs, dchs, duration, k),
        step_field(k).0 == Field::AView || step_field(k).0 == Field::AView2 || step_field(k).0 == Field::DView,
    ensures
        read_back(achs, dchs, duration, k),
{
    lemma_setup(achs, dchs, duration, k);
    lemma_flags();
    lemma_keys(0);
    let lines = settings_lines(achs, dchs, duration);
    let (f, ch) = step_field(k);
    let b = match f {
        Field::AView => achs[ch].view,
        Field::AView2 => achs[ch].view2,
        _ => dchs[ch].view,
    };
    lemma_line_read(joined(lines), line_offset(lines, k), key_of(f, 0), flag_text(b));
}

#[verifier::spinoff_prover]
#[verifier::rlimit(40)]
proof fn lemma_read_back_colour(achs: Seq<AChannelText>, dchs: Seq<DChannelText>, duration: usize, k: int)
    requires
        read_back_assumptions(achs, dchs, duration, k),
        step_field(k).0 == Field::AColor || step_field(k).0 == Field::DColor,
    ensures
        read_back(achs, dchs, duration, k),
{
    lemma_setup(achs, dchs, duration, k);
    lemma_keys(0);
    let lines = settings_lines(achs, dchs, duration);
    let t = joined(lines);
    let s = line_offset(lines, k);
    let (f, ch) = step_field(k);
    let c = if f == Field::AColor { achs[ch].color } else { dchs[ch].color };
    let k0 = key_of(Field::AColor, 0);
    let a = decimal(c.0 as nat);
    let b = decimal(c.1 as nat);
    let cc = decimal(c.2 as nat);
    let d = decimal(c.3 as nat);
    let rest = a + seq![58u8] + b + seq![58u8] + cc + seq![58u8] + d;
    assert(colour_line(c) =~= k0 + rest);
    lemma_decimal_digits(c.0 as nat);
    lemma_decimal_digits(c.1 as nat);
    lemma_decimal_digits(c.2 as nat);
    lemma_decimal_digits(c.3 as nat);
    assert(one_line(rest)) by {
        assert forall|j: int| 0 <= j < rest.len() implies rest[j] != 10u8 by {
            if j < a.len() {
                assert(rest[j] == a[j]);
            } else if j == a.len() {
            } else if j < a.len() + 1 + b.len() {
                assert(rest[j] == b[j - a.len() - 1]);
            } else if j == a.len() + 1 + b.len() {
            } else if j < a.len() + 2 + b.len() + cc.len() {
                assert(rest[j] == cc[j - a.len() - 2 - b.len()]);
            } else if j == a.len() + 2 + b.len() + cc.len() {
            } else {
                assert(rest[j] == d[j - a.len() - 3 - b.len() - cc.len()]);
            }
        }
    }
    lemma_line_read(t, s, k0, rest);
    lemma_colour_read(t, s, c);
}

proof fn lemma_read_back_duration(achs: Seq<AChannelText>, dchs: Seq<DChannelText>, duration: usize, k: int)
    requires
        read_back_assumptions(achs, dchs, duration, k),
        step_field(k).0 == Field::Duration,
    ensures
        read_back(achs, dchs, duration, k),
{
    lemma_setup(achs, dchs, duration, k);
    lemma_keys(0);
    let lines = settings_lines(achs, dchs, duration);
    let v = decimal(duration as nat);
    lemma_decimal_digits(duration as nat);
    assert(one_line(v));
    lemma_line_read(joined(lines), line_offset(lines, k), key_of(Field::Duration, 0), v);
    lemma_decimal_value(duration as nat, usize::MAX as int);
}

/// A settings file as written is read back line by line: reading line `k`
/// at the start of that line (the first line starts at 0) gives the value
/// written there and the start of the next line.
pub proof fn lemma_settings_read_back(
    achs: Seq<AChannelText>,
    dchs: Seq<DChannelText>,
    duration: usize,
    k: int,
)
    requires
        read_back_assumptions(achs, dchs, duration, k),
    ensures
        line_offset(settings_lines(achs, dchs, duration), 0) == 0,
        read_back(achs, dchs, duration, k),
{
    assert(settings_lines(achs, dchs, duration).take(0) =~= Seq::<Seq<u8>>::empty());
    match step_field(k).0 {
        Field::Version => lemma_read_back_version(achs, dchs, duration, k),
        Field::AName | Field::DName => lemma_read_back_name(achs, dchs, duration, k),
        Field::AColor | Field::DColor => lemma_read_back_colour(achs, dchs, duration, k),
        Field::AView | Field::AView2 | Field::DView => lemma_read_back_flag(achs, dchs, duration, k),
        Field::AConverter | Field::AReduction | Field::AReduction2 | Field::DConverter => lemma_read_back_text(
            achs,
            dchs,
            duration,
            k,
        ),
        Field::Duration => lemma_read_back_duration(achs, dchs, duration, k),
    }
}


/// No byte of `b` is zero.
pub open spec fn zero_free(b: Seq<u8>) -> bool {
    forall|j: int| 0 <= j < b.len() ==> b[j] != 0u8
}

/// The names and factor texts hold no zero byte.
pub open spec fn texts_zero_free(achs: Seq<AChannelText>, dchs: Seq<DChannelText>) -> bool {
    &&& forall|i: int|
        0 <= i < achs.len() ==> {
            &&& zero_free(#[trigger] achs[i].name@)
            &&& zero_free(achs[i].converter@)
            &&& zero_free(achs[i].reduction@)
            &&& zero_free(achs[i].reduction2@)
        }
    &&& forall|i: int| 0 <= i < dchs.len() ==> zero_free(#[trigger] dchs[i].name@) && zero_free(dchs[i].converter@)
}

proof fn lemma_zero_free_add(a: Seq<u8>, b: Seq<u8>)
    requires
        zero_free(a),
        zero_free(b),
    ensures
        zero_free(a + b),
{
    assert forall|j: int| 0 <= j < (a + b).len() implies (a + b)[j] != 0u8 by {
        if j < a.len() {
            assert((a + b)[j] == a[j]);
        } else {
            assert((a + b)[j] == b[j - a.len()]);
        }
    }
}

proof fn lemma_joined_zero_free(lines: Seq<Seq<u8>>)
    requires
        forall|k: int| 0 <= k < lines.len() ==> zero_free(#[trigger] lines[k]),
    ensures
        zero_free(joined(lines)),
    decreases lines.len(),
{
    if lines.len() > 0 {
        let d = lines.drop_last();
        assert forall|k: int| 0 <= k < d.len() implies zero_free(#[trigger] d[k]) by {
            assert(d[k] == lines[k]);
        }
        lemma_joined_zero_free(d);
        assert(zero_free(lines.last()));
        lemma_zero_free_add(joined(d), lines.last());
        assert(zero_free(seq![13u8, 10u8]));
        lemma_zero_free_add(joined(d) + lines.last(), seq![13u8, 10u8]);
    }
}

proof fn lemma_decimal_zero_free(n: nat)
    ensures
        zero_free(decimal(n)),
{
    lemma_decimal_digits(n);
}

proof fn lemma_field_line_zero_free(
    f: Field,
    ch: int,
    achs: Seq<AChannelText>,
    dchs: Seq<DChannelText>,
    duration: usize,
)
    requires
        texts_zero_free(achs, dchs),
        0 <= ch,
        (f == Field::AName || f == Field::AColor || f == Field::AView || f == Field::AView2
            || f == Field::AConverter || f == Field::AReduction || f == Field::AReduction2) ==> ch < achs.len(),
        (f == Field::DName || f == Field::DColor || f == Field::DView || f == Field::DConverter) ==> ch < dchs.len(),
    ensures
        zero_free(field_line(f, ch, achs, dchs, duration)),
{
    lemma_keys(ch as nat);
    let col = seq![58u8];
    assert(zero_free(col));
    assert(zero_free(seq![49u8]));
    assert(zero_free(flag_text(true)) && zero_free(flag_text(false)));
    assert forall|ff: Field| #![auto] zero_free(key_of(ff, 0)) by {
        match ff {
            Field::AName | Field::DName => {
                assert(key_of(ff, 0) == name_key(0));
            },
            _ => {},
        }
        lemma_keys(0);
        let k = key_of(ff, 0);
        assert forall|j: int| 0 <= j < k.len() implies k[j] != 0u8 by {
            if j < k.len() - 1 {
                assert(k[j] < 128 && k[j] != 58u8);
            }
        }
    }
    let nk = name_key(ch as nat);
    assert(zero_free(nk)) by {
        assert forall|j: int| 0 <= j < nk.len() implies nk[j] != 0u8 by {
            if j < nk.len() - 1 {
                lemma_decimal_digits(ch as nat);
                if 4 <= j {
                    assert(nk[j] == decimal(ch as nat)[j - 4]);
                }
            }
        }
    }
    if f == Field::AName || f == Field::AColor || f == Field::AView || f == Field::AView2 || f == Field::AConverter
        || f == Field::AReduction || f == Field::AReduction2 {
        assert(zero_free(achs[ch].name@));
    } else if f == Field::DName || f == Field::DColor || f == Field::DView || f == Field::DConverter {
        assert(zero_free(dchs[ch].name@));
    }
    match f {
        Field::Version => lemma_zero_free_add(key_of(f, 0), seq![49u8]),
        Field::AName => lemma_zero_free_add(nk, achs[ch].name@),
        Field::DName => lemma_zero_free_add(nk, dchs[ch].name@),
        Field::AColor | Field::DColor => {
            let c = if f == Field::AColor { achs[ch].color } else { dchs[ch].color };
            lemma_decimal_zero_free(c.0 as nat);
            lemma_decimal_zero_free(c.1 as nat);
            lemma_decimal_zero_free(c.2 as nat);
            lemma_decimal_zero_free(c.3 as nat);
            let k0 = key_of(Field::AColor, 0);
            let p1 = k0 + decimal(c.0 as nat);
            lemma_zero_free_add(k0, decimal(c.0 as nat));
            lemma_zero_free_add(p1, col);
            lemma_zero_free_add(p1 + col, decimal(c.1 as nat));
            let p2 = p1 + col + decimal(c.1 as nat);
            lemma_zero_free_add(p2, col);
            lemma_zero_free_add(p2 + col, decimal(c.2 as nat));
            let p3 = p2 + col + decimal(c.2 as nat);
            lemma_zero_free_add(p3, col);
            lemma_zero_free_add(p3 + col, decimal(c.3 as nat));
        },
        Field::AView => lemma_zero_free_add(key_of(f, 0), flag_text(achs[ch].view)),
        Field::AView2 => lemma_zero_free_add(key_of(f, 0), flag_text(achs[ch].view2)),
        Field::DView => lemma_zero_free_add(key_of(f, 0), flag_text(dchs[ch].view)),
        Field::AConverter => lemma_zero_free_add(key_of(f, 0), achs[ch].converter@),
        Field::AReduction => lemma_zero_free_add(key_of(f, 0), achs[ch].reduction@),
        Field::AReduction2 => lemma_zero_free_add(key_of(f, 0), achs[ch].reduction2@),
        Field::DConverter => lemma_zero_free_add(key_of(f, 0), dchs[ch].converter@),
        Field::Duration => {
            lemma_decimal_zero_free(duration as nat);
            lemma_zero_free_add(key_of(f, 0), decimal(duration as nat));
        },
    }
}

/// A settings file holds no zero byte when its names and factor texts hold
/// none, so that in a scope file the zero byte after it ends it.
pub proof fn lemma_settings_file_zero_free(achs: Seq<AChannelText>, dchs: Seq<DChannelText>, duration: usize)
    requires
        texts_zero_free(achs, dchs),
    ensures
        zero_free(settings_file(achs, dchs, duration)),
{
    let lines = settings_lines(achs, dchs, duration);
    let na = achs.len() as int;
    let nd = dchs.len() as int;
    assert forall|k: int| 0 <= k < lines.len() implies zero_free(#[trigger] lines[k]) by {
        if k < setting_lines(na, nd) {
            let (f, ch) = written_field(k, na, nd);
            assert(0 <= ch);
            assert(ch < na || !(1 <= k <= 7 * na));
            assert(ch < nd || !(7 * na < k <= 7 * na + 4 * nd));
            lemma_field_line_zero_free(f, ch, achs, dchs, duration);
        } else {
            assert(zero_free(nop_line()));
        }
    }
    lemma_joined_zero_free(lines);
}


// ---------------------------------------------------------------------------
// Applying what is read to the settings.

/// The settings of an analog channel as values.
pub struct AChannelModel {
    pub name: Seq<u8>,
    pub color: (u8, u8, u8, u8),
    pub view: bool,
    pub view2: bool,
    pub converter: Seq<u8>,
    pub reduction: Seq<u8>,
    pub reduction2: Seq<u8>,
}

/// The settings of a digital channel as values.
pub struct DChannelModel {
    pub name: Seq<u8>,
    pub color: (u8, u8, u8, u8),
    pub view: bool,
    pub converter: Seq<u8>,
}

impl View for AChannelText {
    type V = AChannelModel;

    open spec fn view(&self) -> AChannelModel {
        AChannelModel {
            name: self.name@,
            color: self.color,
            view: self.view,
            view2: self.view2,
            converter: self.converter@,
            reduction: self.reduction@,
            reduction2: self.reduction2@,
        }
    }
}

impl View for DChannelText {
    type V = DChannelModel;

    open spec fn view(&self) -> DChannelModel {
        DChannelModel { name: self.name@, color: self.color, view: self.view, converter: self.converter@ }
    }
}

/// The settings a settings file carries: the channels (names and factors
/// as text) and the refresh period.
pub struct SettingsRecord {
    pub achs: Vec<AChannelText>,
    pub dchs: Vec<DChannelText>,
    pub duration: usize,
}

/// The settings a settings file carries, as values.
pub struct SettingsModel {
    pub achs: Seq<AChannelModel>,
    pub dchs: Seq<DChannelModel>,
    pub duration: usize,
}

impl View for SettingsRecord {
    type V = SettingsModel;

    open spec fn view(&self) -> SettingsModel {
        SettingsModel {
            achs: self.achs@.map_values(|a: AChannelText| a@),
            dchs: self.dchs@.map_values(|d: DChannelText| d@),
            duration: self.duration,
        }
    }
}

/// The settings after taking the value `item` read from the text `t`: the
/// field it names changes, everything else stays.
pub open spec fn apply_item(m: SettingsModel, t: Seq<u8>, item: SettingsItem) -> SettingsModel {
    match item {
        SettingsItem::Version => m,
        SettingsItem::AName(i, a, b) => SettingsModel {
            achs: m.achs.update(i as int, AChannelModel { name: t.subrange(a as int, b as int), ..m.achs[i as int] }),
            ..m
        },
        SettingsItem::AColor(i, r, g, b, al) => SettingsModel {
            achs: m.achs.update(i as int, AChannelModel { color: (r, g, b, al), ..m.achs[i as int] }),
            ..m
        },
        SettingsItem::AView(i, v) => SettingsModel {
            achs: m.achs.update(i as int, AChannelModel { view: v, ..m.achs[i as int] }),
            ..m
        },
        SettingsItem::AView2(i, v) => SettingsModel {
            achs: m.achs.update(i as int, AChannelModel { view2: v, ..m.achs[i as int] }),
            ..m
        },
        SettingsItem::AConverter(i, a, b) => SettingsModel {
            achs: m.achs.update(
                i as int,
                AChannelModel { converter: t.subrange(a as int, b as int), ..m.achs[i as int] },
            ),
            ..m
        },
        SettingsItem::AReduction(i, a, b) => SettingsModel {
            achs: m.achs.update(
                i as int,
                AChannelModel { reduction: t.subrange(a as int, b as int), ..m.achs[i as int] },
            ),
            ..m
        },
        SettingsItem::AReduction2(i, a, b) => SettingsModel {
            achs: m.achs.update(
                i as int,
                AChannelModel { reduction2: t.subrange(a as int, b as int), ..m.achs[i as int] },
            ),
            ..m
        },
        SettingsItem::DName(i, a, b) => SettingsModel {
            dchs: m.dchs.update(i as int, DChannelModel { name: t.subrange(a as int, b as int), ..m.dchs[i as int] }),
            ..m
        },
        SettingsItem::DColor(i, r, g, b, al) => SettingsModel {
            dchs: m.dchs.update(i as int, DChannelModel { color: (r, g, b, al), ..m.dchs[i as int] }),
            ..m
        },
        SettingsItem::DView(i, v) => SettingsModel {
            dchs: m.dchs.update(i as int, DChannelModel { view: v, ..m.dchs[i as int] }),
            ..m
        },
        SettingsItem::DConverter(i, a, b) => SettingsModel {
            dchs: m.dchs.update(
                i as int,
                DChannelModel { converter: t.subrange(a as int, b as int), ..m.dchs[i as int] },
            ),
            ..m
        },
        SettingsItem::Duration(d) => SettingsModel { duration: d, ..m },
    }
}

/// The settings hold as many channels as a settings file describes.
pub open spec fn record_shaped(m: SettingsModel) -> bool {
    m.achs.len() == ACHANELS && m.dchs.len() == DCHANELS
}

fn copy_range(text: &[u8], a: usize, b: usize) -> (r: Vec<u8>)
    requires
        a <= b <= text@.len(),
    ensures
        r@ == text@.subrange(a as int, b as int),
{
    vstd::slice::slice_to_vec(vstd::slice::slice_subrange(text, a, b))
}

/// Takes the value `item`, read from `text`, into the settings.
pub fn apply_settings_item(rec: &mut SettingsRecord, text: &[u8], item: SettingsItem)
    requires
        record_shaped(old(rec)@),
        item_in(item, text@.len() as int),
    ensures
        final(rec)@ == apply_item(old(rec)@, text@, item),
        record_shaped(final(rec)@),
{
    let ghost m = rec@;
    match item {
        SettingsItem::Version => {},
        SettingsItem::AName(i, a, b) => {
            let mut c = rec.achs.remove(i);
            c.name = copy_range(text, a, b);
            rec.achs.insert(i, c);
        },
        SettingsItem::AColor(i, r, g, b, al) => {
            let mut c = rec.achs.remove(i);
            c.color = (r, g, b, al);
            rec.achs.insert(i, c);
        },
        SettingsItem::AView(i, v) => {
            let mut c = rec.achs.remove(i);
            c.view = v;
            rec.achs.insert(i, c);
        },
        SettingsItem::AView2(i, v) => {
            let mut c = rec.achs.remove(i);
            c.view2 = v;
            rec.achs.insert(i, c);
        },
        SettingsItem::AConverter(i, a, b) => {
            let mut c = rec.achs.remove(i);
            c.converter = copy_range(text, a, b);
            rec.achs.insert(i, c);
        },
        SettingsItem::AReduction(i, a, b) => {
            let mut c = rec.achs.remove(i);
            c.reduction = copy_range(text, a, b);
            rec.achs.insert(i, c);
        },
        SettingsItem::AReduction2(i, a, b) => {
            let mut c = rec.achs.remove(i);
            c.reduction2 = copy_range(text, a, b);
            rec.achs.insert(i, c);
        },
        SettingsItem::DName(i, a, b) => {
            let mut c = rec.dchs.remove(i);
            c.name = copy_range(text, a, b);
            rec.dchs.insert(i, c);
        },
        SettingsItem::DColor(i, r, g, b, al) => {
            let mut c = rec.dchs.remove(i);
            c.color = (r, g, b, al);
            rec.dchs.insert(i, c);
        },
        SettingsItem::DView(i, v) => {
            let mut c = rec.dchs.remove(i);
            c.view = v;
            rec.dchs.insert(i, c);
        },
        SettingsItem::DConverter(i, a, b) => {
            let mut c = rec.dchs.remove(i);
            c.converter = copy_range(text, a, b);
            rec.dchs.insert(i, c);
        },
        SettingsItem::Duration(d) => {
            rec.duration = d;
        },
    }
    proof {
        let ma = rec@.achs;
        let md = rec@.dchs;
        let r = apply_item(m, text@, item);
        assert(ma =~= r.achs);
        assert(md =~= r.dchs);
    }
}


/// Reading a settings text `t` into the settings `m`, from line `step` on
/// (the line starting at `pos`): each value read is taken at once; the
/// first refused line ends the reading with its error, the values taken
/// before it staying taken.
pub open spec fn settings_read(t: Seq<u8>, m: SettingsModel, pos: int, step: int) -> (
    SettingsModel,
    Result<(), SettingsError>,
)
    decreases SETTINGS_LINES - step,
{
    if step < 0 || step >= SETTINGS_LINES {
        (m, Ok(()))
    } else {
        match settings_step(t, pos, step) {
            StepResult::Item(item, next) => settings_read(t, apply_item(m, t, item), next, step + 1),
            StepResult::Fail(e) => (m, Err(e)),
            StepResult::Stuck => (m, Err(SettingsError::Parser)),
        }
    }
}

/// No line from `step` on, up to the first refused one, is a colour line on
/// which reading cannot go on.
pub open spec fn read_ok(t: Seq<u8>, pos: int, step: int) -> bool
    decreases SETTINGS_LINES - step,
{
    if step < 0 || step >= SETTINGS_LINES {
        true
    } else {
        match settings_step(t, pos, step) {
            StepResult::Item(_, next) => read_ok(t, next, step + 1),
            StepResult::Fail(_) => true,
            StepResult::Stuck => false,
        }
    }
}

/// Reads a settings text into the settings, line by line, taking each
/// value as it is read; the first refused line ends the reading with its
/// error. The factors are taken as text.
pub fn read_settings(text: &[u8], rec: &mut SettingsRecord) -> (r: Result<(), SettingsError>)
    requires
        record_shaped(old(rec)@),
        read_ok(text@, 0, 0),
    ensures
        (final(rec)@, r) == settings_read(text@, old(rec)@, 0, 0),
{
    let ghost t = text@;
    let ghost m0 = rec@;
    let _n = text.len();
    let mut pos: usize = 0;
    let mut step: usize = 0;
    let mut failed: Option<SettingsError> = None;
    while step < SETTINGS_LINES && failed.is_none()
        invariant
            t == text@,
            t.len() <= usize::MAX,
            step <= SETTINGS_LINES,
            record_shaped(rec@),
            failed is None ==> read_ok(t, pos as int, step as int),
            failed is None ==> settings_read(t, m0, 0, 0) == settings_read(t, rec@, pos as int, step as int),
            failed matches Some(e) ==> settings_read(t, m0, 0, 0) == (rec@, Err::<(), SettingsError>(e)),
        decreases SETTINGS_LINES - step,
    {
        proof {
            lemma_step_item(t, pos as int, step as int);
        }
        let got = settings_next(text, pos, step);
        match got {
            Err(e) => {
                assert(settings_step(t, pos as int, step as int) == StepResult::Fail(e));
                failed = Some(e);
            },
            Ok((item, next)) => {
                apply_settings_item(rec, text, item);
                pos = next;
            },
        }
        step = step + 1;
    }
    match failed {
        Some(e) => Err(e),
        None => Ok(()),
    }
}


/// The settings that a settings file written for these channels and
/// refresh period carries.
pub open spec fn written_model(achs: Seq<AChannelText>, dchs: Seq<DChannelText>, duration: usize) -> SettingsModel {
    SettingsModel {
        achs: achs.map_values(|a: AChannelText| a@),
        dchs: dchs.map_values(|d: DChannelText| d@),
        duration: duration,
    }
}

/// The line of field `f` (0 to 6) of analog channel `i`.
pub open spec fn a_line(i: int, f: int) -> int {
    1 + 7 * i + f
}

/// The line of field `f` (0 to 3) of digital channel `i`.
pub open spec fn d_line(i: int, f: int) -> int {
    1 + 7 * ACHANELS + 4 * i + f
}

/// The line of the refresh period.
pub open spec fn duration_line() -> int {
    1 + 7 * ACHANELS + 4 * DCHANELS
}

/// `m` with the fields on lines `k` and after taken from `w`.
pub open spec fn overwrite_from(m: SettingsModel, w: SettingsModel, k: int) -> SettingsModel {
    SettingsModel {
        achs: Seq::new(
            ACHANELS as nat,
            |i: int|
                AChannelModel {
                    name: if a_line(i, 0) >= k { w.achs[i].name } else { m.achs[i].name },
                    color: if a_line(i, 1) >= k { w.achs[i].color } else { m.achs[i].color },
                    view: if a_line(i, 2) >= k { w.achs[i].view } else { m.achs[i].view },
                    view2: if a_line(i, 3) >= k { w.achs[i].view2 } else { m.achs[i].view2 },
                    converter: if a_line(i, 4) >= k { w.achs[i].converter } else { m.achs[i].converter },
                    reduction: if a_line(i, 5) >= k { w.achs[i].reduction } else { m.achs[i].reduction },
                    reduction2: if a_line(i, 6) >= k { w.achs[i].reduction2 } else { m.achs[i].reduction2 },
                },
        ),
        dchs: Seq::new(
            DCHANELS as nat,
            |i: int|
                DChannelModel {
                    name: if d_line(i, 0) >= k { w.dchs[i].name } else { m.dchs[i].name },
                    color: if d_line(i, 1) >= k { w.dchs[i].color } else { m.dchs[i].color },
                    view: if d_line(i, 2) >= k { w.dchs[i].view } else { m.dchs[i].view },
                    converter: if d_line(i, 3) >= k { w.dchs[i].converter } else { m.dchs[i].converter },
                },
        ),
        duration: if duration_line() >= k { w.duration } else { m.duration },
    }
}

/// Line `k` of a written file, taken into `m`: the field of that line gets
/// its written value.
pub open spec fn write_field(m: SettingsModel, w: SettingsModel, fc: (Field, int)) -> SettingsModel {
    let (f, ch) = fc;
    match f {
        Field::Version => m,
        Field::AName => SettingsModel { achs: m.achs.update(ch, AChannelModel { name: w.achs[ch].name, ..m.achs[ch] }), ..m },
        Field::AColor => SettingsModel { achs: m.achs.update(ch, AChannelModel { color: w.achs[ch].color, ..m.achs[ch] }), ..m },
        Field::AView => SettingsModel { achs: m.achs.update(ch, AChannelModel { view: w.achs[ch].view, ..m.achs[ch] }), ..m },
        Field::AView2 => SettingsModel { achs: m.achs.update(ch, AChannelModel { view2: w.achs[ch].view2, ..m.achs[ch] }), ..m },
        Field::AConverter => SettingsModel {
            achs: m.achs.update(ch, AChannelModel { converter: w.achs[ch].converter, ..m.achs[ch] }),
            ..m
        },
        Field::AReduction => SettingsModel {
            achs: m.achs.update(ch, AChannelModel { reduction: w.achs[ch].reduction, ..m.achs[ch] }),
            ..m
        },
        Field::AReduction2 => SettingsModel {
            achs: m.achs.update(ch, AChannelModel { reduction2: w.achs[ch].reduction2, ..m.achs[ch] }),
            ..m
        },
        Field::DName => SettingsModel { dchs: m.dchs.update(ch, DChannelModel { name: w.dchs[ch].name, ..m.dchs[ch] }), ..m },
        Field::DColor => SettingsModel { dchs: m.dchs.update(ch, DChannelModel { color: w.dchs[ch].color, ..m.dchs[ch] }), ..m },
        Field::DView => SettingsModel { dchs: m.dchs.update(ch, DChannelModel { view: w.dchs[ch].view, ..m.dchs[ch] }), ..m },
        Field::DConverter => SettingsModel {
            dchs: m.dchs.update(ch, DChannelModel { converter: w.dchs[ch].converter, ..m.dchs[ch] }),
            ..m
        },
        Field::Duration => SettingsModel { duration: w.duration, ..m },
    }
}

/// The value read from line `k` of a written file is the written one.
proof fn lemma_apply_written(achs: Seq<AChannelText>, dchs: Seq<DChannelText>, duration: usize, k: int, m: SettingsModel)
    requires
        read_back_assumptions(achs, dchs, duration, k),
        record_shaped(m),
    ensures
        ({
            let lines = settings_lines(achs, dchs, duration);
            let t = joined(lines);
            settings_step(t, line_offset(lines, k), k) matches StepResult::Item(item, next) && next
                == line_offset(lines, k + 1) && apply_item(m, t, item) == write_field(
                m,
                written_model(achs, dchs, duration),
                step_field(k),
            )
        }),
{
    lemma_settings_read_back(achs, dchs, duration, k);
    let lines = settings_lines(achs, dchs, duration);
    let t = joined(lines);
    let w = written_model(achs, dchs, duration);
    let (f, ch) = step_field(k);
    assert(0 <= ch < DCHANELS);
    assert(ch < ACHANELS || !(1 <= k <= 7 * ACHANELS));
    if let StepResult::Item(item, next) = settings_step(t, line_offset(lines, k), k) {
        let a = apply_item(m, t, item);
        let b = write_field(m, w, (f, ch));
        if 1 <= k <= 7 * ACHANELS {
            assert(w.achs[ch] == achs[ch]@);
        } else if k <= 7 * ACHANELS + 4 * DCHANELS {
            assert(w.dchs[ch] == dchs[ch]@);
        }
        assert(a.achs =~= b.achs);
        assert(a.dchs =~= b.dchs);
    }
}

/// Taking the field of line `k` and then the fields from line `k + 1` on is
/// taking the fields from line `k` on.
proof fn lemma_overwrite_step(m: SettingsModel, w: SettingsModel, k: int)
    requires
        0 <= k < SETTINGS_LINES,
        record_shaped(m),
        record_shaped(w),
    ensures
        overwrite_from(write_field(m, w, step_field(k)), w, k + 1) == overwrite_from(m, w, k),
{
    let (f, ch) = step_field(k);
    let m1 = write_field(m, w, (f, ch));
    let x = overwrite_from(m1, w, k + 1);
    let y = overwrite_from(m, w, k);
    if 1 <= k <= 7 * ACHANELS {
        assert(k - 1 == 7 * ch + (k - 1) % 7);
    } else if 7 * ACHANELS < k <= 7 * ACHANELS + 4 * DCHANELS {
        assert(k - 1 - 7 * ACHANELS == 4 * ch + (k - 1 - 7 * ACHANELS) % 4);
    }
    assert forall|i: int| 0 <= i < ACHANELS implies x.achs[i] == y.achs[i] by {
        if 1 <= k <= 7 * ACHANELS && i == ch {
        } else {
            assert(m1.achs[i] == m.achs[i]);
        }
    }
    assert forall|i: int| 0 <= i < DCHANELS implies x.dchs[i] == y.dchs[i] by {
        if 7 * ACHANELS < k <= 7 * ACHANELS + 4 * DCHANELS && i == ch {
        } else {
            assert(m1.dchs[i] == m.dchs[i]);
        }
    }
    assert(x.achs =~= y.achs);
    assert(x.dchs =~= y.dchs);
}

/// The conditions of the round trip: those of the read-back of each line.
pub open spec fn round_trip_assumptions(achs: Seq<AChannelText>, dchs: Seq<DChannelText>, duration: usize) -> bool {
    &&& achs.len() == ACHANELS
    &&& dchs.len() == DCHANELS
    &&& texts_on_one_line(achs, dchs)
    &&& settings_file(achs, dchs, duration).len() <= usize::MAX
}

proof fn lemma_read_from(achs: Seq<AChannelText>, dchs: Seq<DChannelText>, duration: usize, m: SettingsModel, k: int)
    requires
        round_trip_assumptions(achs, dchs, duration),
        record_shaped(m),
        0 <= k <= SETTINGS_LINES,
    ensures
        ({
            let lines = settings_lines(achs, dchs, duration);
            let t = joined(lines);
            &&& read_ok(t, line_offset(lines, k), k)
            &&& settings_read(t, m, line_offset(lines, k), k) == (
                overwrite_from(m, written_model(achs, dchs, duration), k),
                Ok::<(), SettingsError>(()),
            )
        }),
    decreases SETTINGS_LINES - k,
{
    let w = written_model(achs, dchs, duration);
    if k == SETTINGS_LINES {
        let y = overwrite_from(m, w, k);
        assert(y.achs =~= m.achs);
        assert(y.dchs =~= m.dchs);
    } else {
        lemma_apply_written(achs, dchs, duration, k, m);
        let m1 = write_field(m, w, step_field(k));
        assert(record_shaped(m1));
        lemma_read_from(achs, dchs, duration, m1, k + 1);
        lemma_overwrite_step(m, w, k);
    }
}

/// A settings file as written is read into any settings of the right shape
/// without error, and leaves exactly the settings it was written from:
/// every channel's name, colour, chart flags and factor texts, and the
/// refresh period.
pub proof fn lemma_settings_round_trip(
    achs: Seq<AChannelText>,
    dchs: Seq<DChannelText>,
    duration: usize,
    m: SettingsModel,
)
    requires
        round_trip_assumptions(achs, dchs, duration),
        record_shaped(m),
    ensures
        read_ok(settings_file(achs, dchs, duration), 0, 0),
        settings_read(settings_file(achs, dchs, duration), m, 0, 0) == (
            written_model(achs, dchs, duration),
            Ok::<(), SettingsError>(()),
        ),
{
    let lines = settings_lines(achs, dchs, duration);
    assert(lines.take(0) =~= Seq::<Seq<u8>>::empty());
    assert(line_offset(lines, 0) == 0);
    lemma_read_from(achs, dchs, duration, m, 0);
    let w = written_model(achs, dchs, duration);
    let y = overwrite_from(m, w, 0);
    assert(y.achs =~= w.achs);
    assert(y.dchs =~= w.dchs);
}

} // verus!
