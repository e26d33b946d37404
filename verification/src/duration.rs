//! The `Duration` value and its textual codec.

use vstd::prelude::*;

use crate::text::all_digits;
use crate::text::dec_repr;
use crate::text::digit_run_end;
use crate::text::digit_val;
use crate::text::digits_val;
use crate::text::is_digit;
use crate::text::lemma_digit_run_end_is;
use crate::text::lemma_digits_val_prefix_le;
use crate::text::lemma_digits_val_take_step;

verus! {

/// A duration in one of the two mutually exclusive grammars: a whole number
/// of weeks, or calendar fields (years, months, days) together with clock
/// fields (hours, minutes, seconds).
#[derive(Debug, Clone, Copy, PartialEq, Eq, Structural)]
pub enum Duration {
    Weeks { weeks: u64 },
    Full { years: u64, months: u8, days: u8, hours: u8, minutes: u8, seconds: u8 },
}

/// The two disjoint parse failures: the text matches neither grammar, or a
/// captured digit group does not fit its field's integer width.
#[derive(Debug, Clone, Copy, PartialEq, Eq, Structural)]
pub enum ParseError {
    FormatMismatch,
    FieldOverflow,
}

impl ParseError {
    /// A short description of the failure.
    pub fn message(&self) -> (m: &'static str)
        ensures
            *self is FormatMismatch ==> m@ == "does not match either duration format"@,
            *self is FieldOverflow ==> m@ == "a numeric field does not fit its integer width"@,
    {
        match *self {
            ParseError::FormatMismatch => "does not match either duration format",
            ParseError::FieldOverflow => "a numeric field does not fit its integer width",
        }
    }
}

/// The digit groups captured by a match of the full grammar. Each present
/// group is a non-empty digit string; the clock groups can only be present
/// when the `'T'` separator is (`has_time`).
pub struct FullGroups {
    pub years: Option<Seq<char>>,
    pub months: Option<Seq<char>>,
    pub days: Option<Seq<char>>,
    pub has_time: bool,
    pub hours: Option<Seq<char>>,
    pub minutes: Option<Seq<char>>,
    pub seconds: Option<Seq<char>>,
}

/// One optional group of the full grammar: a non-empty maximal digit run
/// starting at `i` and followed by `unit` makes the group present; anything
/// else leaves it absent and the position unmoved. The result pairs the
/// captured digits with the position after the group.
pub open spec fn scan_group(s: Seq<char>, i: int, unit: char) -> (Option<Seq<char>>, int) {
    let j = digit_run_end(s, i);
    if i < j && j < s.len() && s[j] == unit {
        (Some(s.subrange(i, j)), j + 1)
    } else {
        (None, i)
    }
}

/// Match of the full grammar: a leading `'P'`, then optional groups
/// `<digits>Y`, `<digits>M`, `<digits>D`, then optionally a `'T'` followed by
/// optional groups `<digits>H`, `<digits>M`, `<digits>S`, and nothing after.
/// Returns the captured groups, or `None` when `s` is not in the grammar.
pub open spec fn scan_full(s: Seq<char>) -> Option<FullGroups> {
    if s.len() < 1 || s[0] != 'P' {
        None
    } else {
        let gy = scan_group(s, 1, 'Y');
        let gmo = scan_group(s, gy.1, 'M');
        let gd = scan_group(s, gmo.1, 'D');
        if gd.1 < s.len() && s[gd.1] == 'T' {
            let gh = scan_group(s, gd.1 + 1, 'H');
            let gmi = scan_group(s, gh.1, 'M');
            let gs = scan_group(s, gmi.1, 'S');
            if gs.1 == s.len() {
                Some(
                    FullGroups {
                        years: gy.0,
                        months: gmo.0,
                        days: gd.0,
                        has_time: true,
                        hours: gh.0,
                        minutes: gmi.0,
                        seconds: gs.0,
                    },
                )
            } else {
                None
            }
        } else {
            if gd.1 == s.len() {
                Some(
                    FullGroups {
                        years: gy.0,
                        months: gmo.0,
                        days: gd.0,
                        has_time: false,
                        hours: None,
                        minutes: None,
                        seconds: None,
                    },
                )
            } else {
                None
            }
        }
    }
}

/// Match of the weeks grammar `P<digits>W`, where the digit group may be
/// empty (an empty group then fails at the integer-parse step, not here).
pub open spec fn weeks_match(s: Seq<char>) -> bool {
    s.len() >= 2 && s[0] == 'P' && s[s.len() - 1] == 'W' && all_digits(
        s.subrange(1, s.len() - 1),
    )
}

/// The digit group captured by a weeks match.
pub open spec fn weeks_digits(s: Seq<char>) -> Seq<char> {
    s.subrange(1, s.len() - 1)
}

/// A well-formed optional digit group of the full grammar: absent, or a
/// non-empty string of digits.
pub open spec fn group_wf(g: Option<Seq<char>>) -> bool {
    match g {
        Some(ds) => ds.len() > 0 && all_digits(ds),
        None => true,
    }
}

/// Well-formed captured groups: each group well formed, and the clock
/// groups only present under the `'T'` separator.
pub open spec fn groups_wf(g: FullGroups) -> bool {
    &&& group_wf(g.years)
    &&& group_wf(g.months)
    &&& group_wf(g.days)
    &&& group_wf(g.hours)
    &&& group_wf(g.minutes)
    &&& group_wf(g.seconds)
    &&& (!g.has_time ==> g.hours is None && g.minutes is None && g.seconds is None)
}

/// The text of one optional group: its digits, then the unit letter.
pub open spec fn group_part(g: Option<Seq<char>>, unit: char) -> Seq<char> {
    match g {
        Some(ds) => ds + seq![unit],
        None => Seq::<char>::empty(),
    }
}

/// The text that a set of captured groups stands for. The strings of the
/// full grammar are exactly the renderings of well-formed groups.
pub open spec fn render_groups(g: FullGroups) -> Seq<char> {
    seq!['P'] + group_part(g.years, 'Y') + group_part(g.months, 'M') + group_part(g.days, 'D') + (
    if g.has_time {
        seq!['T']
    } else {
        Seq::<char>::empty()
    }) + group_part(g.hours, 'H') + group_part(g.minutes, 'M') + group_part(g.seconds, 'S')
}

/// The value of an optional digit group; an absent group defaults to zero.
pub open spec fn group_val(g: Option<Seq<char>>) -> int {
    match g {
        Some(ds) => digits_val(ds),
        None => 0,
    }
}

/// Whether an optional digit group's value fits under `max`.
pub open spec fn group_fits(g: Option<Seq<char>>, max: int) -> bool {
    group_val(g) <= max
}

/// Whether every group of a full match fits its field's width:
/// years is 64-bit, the remaining fields are 8-bit.
pub open spec fn groups_fit(g: FullGroups) -> bool {
    &&& group_fits(g.years, u64::MAX as int)
    &&& group_fits(g.months, u8::MAX as int)
    &&& group_fits(g.days, u8::MAX as int)
    &&& group_fits(g.hours, u8::MAX as int)
    &&& group_fits(g.minutes, u8::MAX as int)
    &&& group_fits(g.seconds, u8::MAX as int)
}

/// The `Duration` built from the groups of a full match, absent groups
/// defaulting to zero.
pub open spec fn groups_value(g: FullGroups) -> Duration {
    Duration::Full {
        years: group_val(g.years) as u64,
        months: group_val(g.months) as u8,
        days: group_val(g.days) as u8,
        hours: group_val(g.hours) as u8,
        minutes: group_val(g.minutes) as u8,
        seconds: group_val(g.seconds) as u8,
    }
}

/// What parsing returns on any input. The weeks grammar is tried first; only
/// when it does not match is the full grammar tried. A string matching
/// neither is a `FormatMismatch`; a matched group whose value does not fit
/// its field's width — or the empty weeks group, which is no numeral at
/// all — is a `FieldOverflow`.
pub open spec fn spec_parse(s: Seq<char>) -> Result<Duration, ParseError> {
    if weeks_match(s) {
        let ds = weeks_digits(s);
        if ds.len() > 0 && digits_val(ds) <= u64::MAX {
            Ok(Duration::Weeks { weeks: digits_val(ds) as u64 })
        } else {
            Err(ParseError::FieldOverflow)
        }
    } else {
        match scan_full(s) {
            Some(g) => if groups_fit(g) {
                Ok(groups_value(g))
            } else {
                Err(ParseError::FieldOverflow)
            },
            None => Err(ParseError::FormatMismatch),
        }
    }
}

/// The rendering of one field of the full form: its canonical decimal
/// digits followed by the unit letter, or nothing when the field is zero.
pub open spec fn field_part(n: int, unit: char) -> Seq<char> {
    if n > 0 {
        dec_repr(n) + seq![unit]
    } else {
        Seq::<char>::empty()
    }
}

/// What formatting returns: a leading `'P'`; for weeks, the week count and
/// `'W'`; for the full form, each non-zero field in order, with a `'T'`
/// separator exactly when some clock field is non-zero.
pub open spec fn spec_format(d: Duration) -> Seq<char> {
    match d {
        Duration::Weeks { weeks } => seq!['P'] + dec_repr(weeks as int) + seq!['W'],
        Duration::Full { years, months, days, hours, minutes, seconds } => seq!['P'] + field_part(
            years as int,
            'Y',
        ) + field_part(months as int, 'M') + field_part(days as int, 'D') + (
        if hours > 0 || minutes > 0 || seconds > 0 {
            seq!['T']
        } else {
            Seq::<char>::empty()
        }) + field_part(hours as int, 'H') + field_part(minutes as int, 'M') + field_part(
            seconds as int,
            'S',
        ),
    }
}

/// Whether the character at `i` is a decimal digit.
fn digit_at(s: &str, i: usize) -> (b: bool)
    requires
        i < s@.len(),
    ensures
        b == is_digit(s@[i as int]),
{
    let v = s.get_char(i) as u32;
    48 <= v && v <= 57
}

/// Whether `s` holds only decimal digits between `from` and `to`.
fn check_all_digits(s: &str, from: usize, to: usize) -> (b: bool)
    requires
        from <= to,
        to as int <= s@.len(),
    ensures
        b == all_digits(s@.subrange(from as int, to as int)),
{
    let ghost ds = s@.subrange(from as int, to as int);
    let mut i: usize = from;
    while i < to
        invariant
            from <= i <= to,
            to as int <= s@.len(),
            ds == s@.subrange(from as int, to as int),
            forall|k: int| from <= k < i ==> is_digit(#[trigger] s@[k]),
        decreases to - i,
    {
        if !digit_at(s, i) {
            proof {
                assert(ds[i - from] == s@[i as int]);
            }
            return false;
        }
        i = i + 1;
    }
    proof {
        assert forall|k: int| 0 <= k < ds.len() implies is_digit(#[trigger] ds[k]) by {
            assert(ds[k] == s@[from + k]);
        }
    }
    true
}

/// Reads the digits of `s` between `from` and `to` as an unsigned 64-bit
/// decimal numeral; `None` when the value does not fit.
fn parse_u64_digits(s: &str, from: usize, to: usize) -> (r: Option<u64>)
    requires
        from <= to,
        to as int <= s@.len(),
        all_digits(s@.subrange(from as int, to as int)),
    ensures
        ({
            let ds = s@.subrange(from as int, to as int);
            match r {
                Some(v) => digits_val(ds) <= u64::MAX && v == digits_val(ds),
                None => digits_val(ds) > u64::MAX,
            }
        }),
{
    let ghost ds = s@.subrange(from as int, to as int);
    let mut acc: u64 = 0;
    let mut i: usize = from;
    while i < to
        invariant
            from <= i <= to,
            to as int <= s@.len(),
            ds == s@.subrange(from as int, to as int),
            all_digits(ds),
            acc == digits_val(ds.take(i - from)),
        decreases to - i,
    {
        proof {
            assert(ds[i - from] == s@[i as int]);
            assert(is_digit(ds[i - from]));
        }
        let d: u64 = (s.get_char(i) as u32 - 48) as u64;
        proof {
            assert(d == digit_val(ds[i - from]));
            lemma_digits_val_take_step(ds, i - from);
            let m = (u64::MAX - d) as int;
            assert(m == 10 * (m / 10) + m % 10 && 0 <= m % 10 < 10);
        }
        if acc > (u64::MAX - d) / 10 {
            proof {
                lemma_digits_val_prefix_le(ds, i - from + 1);
            }
            return None;
        }
        acc = acc * 10 + d;
        i = i + 1;
    }
    proof {
        assert(ds.take(to - from) =~= ds);
    }
    Some(acc)
}

/// Reads the digits of `s` between `from` and `to` as an unsigned 8-bit
/// decimal numeral; `None` when the value does not fit.
fn parse_u8_digits(s: &str, from: usize, to: usize) -> (r: Option<u8>)
    requires
        from <= to,
        to as int <= s@.len(),
        all_digits(s@.subrange(from as int, to as int)),
    ensures
        ({
            let ds = s@.subrange(from as int, to as int);
            match r {
                Some(v) => digits_val(ds) <= u8::MAX && v == digits_val(ds),
                None => digits_val(ds) > u8::MAX,
            }
        }),
{
    match parse_u64_digits(s, from, to) {
        Some(v) => if v <= 255 {
            Some(v as u8)
        } else {
            None
        },
        None => None,
    }
}

/// One optional group of the full grammar, as `scan_group` describes it:
/// the span of the captured digits (when present) and the next position.
fn scan_group_exec(s: &str, n: usize, i: usize, unit: char) -> (r: (Option<(usize, usize)>, usize))
    requires
        i <= n,
        n as int == s@.len(),
    ensures
        ({
            let g = scan_group(s@, i as int, unit);
            &&& r.1 as int == g.1
            &&& i <= r.1 <= n
            &&& match r.0 {
                Some(sp) => {
                    &&& sp.0 == i
                    &&& i < sp.1 <= n
                    &&& sp.1 as int + 1 == g.1
                    &&& g.0 == Some(s@.subrange(sp.0 as int, sp.1 as int))
                    &&& all_digits(s@.subrange(sp.0 as int, sp.1 as int))
                }
                None => g.0 is None && r.1 == i,
            }
        }),
{
    let mut j: usize = i;
    loop
        invariant
            i <= j <= n,
            n as int == s@.len(),
            forall|k: int| i <= k < j ==> is_digit(#[trigger] s@[k]),
        ensures
            i <= j <= n,
            forall|k: int| i <= k < j ==> is_digit(#[trigger] s@[k]),
            j == n || !is_digit(s@[j as int]),
        decreases n - j,
    {
        if j == n {
            break ;
        }
        if !digit_at(s, j) {
            break ;
        }
        j = j + 1;
    }
    proof {
        lemma_digit_run_end_is(s@, i as int, j as int);
    }
    if i < j && j < n && s.get_char(j) == unit {
        proof {
            let ds = s@.subrange(i as int, j as int);
            assert forall|k: int| 0 <= k < ds.len() implies is_digit(#[trigger] ds[k]) by {
                assert(ds[k] == s@[i + k]);
            }
        }
        (Some((i, j)), j + 1)
    } else {
        (None, i)
    }
}

/// The digit group captured by an optional span of `s`.
pub open spec fn span_group(s: Seq<char>, sp: Option<(usize, usize)>) -> Option<Seq<char>> {
    match sp {
        Some(p) => Some(s.subrange(p.0 as int, p.1 as int)),
        None => None,
    }
}

/// A well-formed optional span: in bounds and holding only digits.
pub open spec fn span_wf(s: Seq<char>, sp: Option<(usize, usize)>) -> bool {
    match sp {
        Some(p) => p.0 <= p.1 && p.1 as int <= s.len() && all_digits(
            s.subrange(p.0 as int, p.1 as int),
        ),
        None => true,
    }
}

/// The value of an optional digit group as a 64-bit field; `None` when it
/// does not fit.
fn group_u64(s: &str, sp: Option<(usize, usize)>) -> (r: Option<u64>)
    requires
        span_wf(s@, sp),
    ensures
        ({
            let g = span_group(s@, sp);
            match r {
                Some(v) => group_fits(g, u64::MAX as int) && v == group_val(g),
                None => !group_fits(g, u64::MAX as int),
            }
        }),
{
    match sp {
        Some(p) => parse_u64_digits(s, p.0, p.1),
        None => Some(0),
    }
}

/// The value of an optional digit group as an 8-bit field; `None` when it
/// does not fit.
fn group_u8(s: &str, sp: Option<(usize, usize)>) -> (r: Option<u8>)
    requires
        span_wf(s@, sp),
    ensures
        ({
            let g = span_group(s@, sp);
            match r {
                Some(v) => group_fits(g, u8::MAX as int) && v == group_val(g),
                None => !group_fits(g, u8::MAX as int),
            }
        }),
{
    match sp {
        Some(p) => parse_u8_digits(s, p.0, p.1),
        None => Some(0),
    }
}

impl Duration {
    /// Parses a duration string, trying the weeks grammar `P<digits>W`
    /// first and the full grammar
    /// `P[<n>Y][<n>M][<n>D][T[<n>H][<n>M][<n>S]]` second.
    ///
    /// Absent groups default to zero, so `"P"` parses to an all-zero full
    /// duration, and a dangling `"T"` with no clock fields is accepted, as
    /// the grammar reads. The weeks grammar allows an empty digit group
    /// (`"PW"`), which then fails at the integer-parse step. A string in
    /// neither grammar gives [`ParseError::FormatMismatch`]; a digit group
    /// too large for its field (or empty, in the weeks grammar) gives
    /// [`ParseError::FieldOverflow`].
    pub fn parse(s: &str) -> (r: Result<Duration, ParseError>)
        ensures
            r == spec_parse(s@),
    {
        let n = s.unicode_len();
        if n >= 2 && s.get_char(0) == 'P' && s.get_char(n - 1) == 'W' {
            if check_all_digits(s, 1, n - 1) {
                if n == 2 {
                    return Err(ParseError::FieldOverflow);
                }
                return match parse_u64_digits(s, 1, n - 1) {
                    Some(w) => Ok(Duration::Weeks { weeks: w }),
                    None => Err(ParseError::FieldOverflow),
                };
            }
        }
        assert(!weeks_match(s@));
        if n == 0 || s.get_char(0) != 'P' {
            return Err(ParseError::FormatMismatch);
        }
        let (gy, i1) = scan_group_exec(s, n, 1, 'Y');
        let (gmo, i2) = scan_group_exec(s, n, i1, 'M');
        let (gd, i3) = scan_group_exec(s, n, i2, 'D');
        let (gh, gmi, gs, end) = if i3 < n && s.get_char(i3) == 'T' {
            let (gh, i4) = scan_group_exec(s, n, i3 + 1, 'H');
            let (gmi, i5) = scan_group_exec(s, n, i4, 'M');
            let (gs, i6) = scan_group_exec(s, n, i5, 'S');
            (gh, gmi, gs, i6)
        } else {
            (None, None, None, i3)
        };
        if end != n {
            assert(scan_full(s@) is None);
            return Err(ParseError::FormatMismatch);
        }
        assert(scan_full(s@) matches Some(g) && g.years == span_group(s@, gy) && g.months
            == span_group(s@, gmo) && g.days == span_group(s@, gd) && g.hours == span_group(s@, gh)
            && g.minutes == span_group(s@, gmi) && g.seconds == span_group(s@, gs));
        let years = match group_u64(s, gy) {
            Some(v) => v,
            None => return Err(ParseError::FieldOverflow),
        };
        let months = match group_u8(s, gmo) {
            Some(v) => v,
            None => return Err(ParseError::FieldOverflow),
        };
        let days = match group_u8(s, gd) {
            Some(v) => v,
            None => return Err(ParseError::FieldOverflow),
        };
        let hours = match group_u8(s, gh) {
            Some(v) => v,
            None => return Err(ParseError::FieldOverflow),
        };
        let minutes = match group_u8(s, gmi) {
            Some(v) => v,
            None => return Err(ParseError::FieldOverflow),
        };
        let seconds = match group_u8(s, gs) {
            Some(v) => v,
            None => return Err(ParseError::FieldOverflow),
        };
        Ok(Duration::Full { years, months, days, hours, minutes, seconds })
    }
}

/// The one-character string for a digit value in `0..=9`.
fn digit_str(d: u64) -> (r: &'static str)
    requires
        d <= 9,
    ensures
        r@ == seq![crate::text::digit_char(d as int)],
{
    let r: &'static str = if d == 0 {
        "0"
    } else if d == 1 {
        "1"
    } else if d == 2 {
        "2"
    } else if d == 3 {
        "3"
    } else if d == 4 {
        "4"
    } else if d == 5 {
        "5"
    } else if d == 6 {
        "6"
    } else if d == 7 {
        "7"
    } else if d == 8 {
        "8"
    } else {
        "9"
    };
    proof {
        reveal_strlit("0");
        reveal_strlit("1");
        reveal_strlit("2");
        reveal_strlit("3");
        reveal_strlit("4");
        reveal_strlit("5");
        reveal_strlit("6");
        reveal_strlit("7");
        reveal_strlit("8");
        reveal_strlit("9");
        assert(r@ =~= seq![crate::text::digit_char(d as int)]);
    }
    r
}

/// Appends the canonical decimal rendering of `n` to `out`.
fn append_decimal(out: &mut String, n: u64)
    ensures
        final(out)@ == old(out)@ + dec_repr(n as int),
    decreases n,
{
    let ghost before = out@;
    if n >= 10 {
        append_decimal(out, n / 10);
    }
    out.append(digit_str(n % 10));
    proof {
        if n <= 9 {
            assert(n % 10 == n);
            assert(out@ =~= before + dec_repr(n as int));
        } else {
            assert(dec_repr(n as int) == dec_repr(n as int / 10).push(
                crate::text::digit_char(n as int % 10),
            ));
            assert(out@ =~= before + dec_repr(n as int));
        }
    }
}

impl Duration {
    /// Renders this duration canonically: a leading `P`; for [`Duration::Weeks`]
    /// the week count (even when zero) and `W`; for [`Duration::Full`] every
    /// non-zero field as `<n>Y`, `<n>M`, `<n>D`, `<n>H`, `<n>M`, `<n>S` in
    /// that order, with a `T` before the clock fields exactly when one of
    /// them is non-zero. An all-zero full duration renders as `"P"`.
    pub fn format(&self) -> (text: String)
        ensures
            text@ == spec_format(*self),
    {
        let mut out = String::new();
        out.append("P");
        proof {
            reveal_strlit("P");
            reveal_strlit("W");
            reveal_strlit("Y");
            reveal_strlit("M");
            reveal_strlit("D");
            reveal_strlit("T");
            reveal_strlit("H");
            reveal_strlit("S");
            assert(out@ =~= seq!['P']);
        }
        match *self {
            Duration::Weeks { weeks } => {
                append_decimal(&mut out, weeks);
                out.append("W");
                proof {
                    assert(out@ =~= spec_format(*self));
                }
            },
            Duration::Full { years, months, days, hours, minutes, seconds } => {
                let ghost p1 = seq!['P'] + field_part(years as int, 'Y');
                let ghost p2 = p1 + field_part(months as int, 'M');
                let ghost p3 = p2 + field_part(days as int, 'D');
                let ghost p4 = p3 + (if hours > 0 || minutes > 0 || seconds > 0 {
                    seq!['T']
                } else {
                    Seq::<char>::empty()
                });
                let ghost p5 = p4 + field_part(hours as int, 'H');
                let ghost p6 = p5 + field_part(minutes as int, 'M');
                if years > 0 {
                    append_decimal(&mut out, years);
                    out.append("Y");
                }
                proof {
                    assert(out@ =~= p1);
                }
                if months > 0 {
                    append_decimal(&mut out, months as u64);
                    out.append("M");
                }
                proof {
                    assert(out@ =~= p2);
                }
                if days > 0 {
                    append_decimal(&mut out, days as u64);
                    out.append("D");
                }
                proof {
                    assert(out@ =~= p3);
                }
                if hours > 0 || minutes > 0 || seconds > 0 {
                    out.append("T");
                }
                proof {
                    assert(out@ =~= p4);
                }
                if hours > 0 {
                    append_decimal(&mut out, hours as u64);
                    out.append("H");
                }
                proof {
                    assert(out@ =~= p5);
                }
                if minutes > 0 {
                    append_decimal(&mut out, minutes as u64);
                    out.append("M");
                }
                proof {
                    assert(out@ =~= p6);
                }
                if seconds > 0 {
                    append_decimal(&mut out, seconds as u64);
                    out.append("S");
                }
                proof {
                    assert(out@ =~= spec_format(*self));
                }
            },
        }
        out
    }
}

} // verus!
