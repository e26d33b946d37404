//! Laws of the codec, stated over the specification-level parse and format
//! and proved for every `Duration` value.

use vstd::prelude::*;

use crate::duration::Duration;
use crate::duration::ParseError;
use crate::duration::FullGroups;
use crate::duration::field_part;
use crate::duration::group_part;
use crate::duration::group_wf;
use crate::duration::groups_wf;
use crate::duration::render_groups;
use crate::duration::groups_fit;
use crate::duration::groups_value;
use crate::duration::scan_full;
use crate::duration::scan_group;
use crate::duration::spec_format;
use crate::duration::spec_parse;
use crate::duration::weeks_digits;
use crate::duration::weeks_match;
use crate::text::dec_repr;
use crate::text::digit_run_end;
use crate::text::is_digit;
use crate::text::lemma_dec_repr;
use crate::text::lemma_digit_run_digits;
use crate::text::lemma_digit_run_end_bounds;
use crate::text::lemma_digit_run_end_is;

verus! {

/// True when no position of `s` holds the character `c`.
pub open spec fn no_char(s: Seq<char>, c: char) -> bool {
    forall|i: int| 0 <= i < s.len() ==> s[i] != c
}

proof fn lemma_no_char_concat(a: Seq<char>, b: Seq<char>, c: char)
    requires
        no_char(a, c),
        no_char(b, c),
    ensures
        no_char(a + b, c),
{
    assert forall|i: int| 0 <= i < (a + b).len() implies (a + b)[i] != c by {
        if i < a.len() {
            assert((a + b)[i] == a[i]);
        } else {
            assert((a + b)[i] == b[i - a.len()]);
        }
    }
}

proof fn lemma_no_char_group_part(g: Option<Seq<char>>, unit: char, c: char)
    requires
        group_wf(g),
        unit != c,
        !is_digit(c),
    ensures
        no_char(group_part(g, unit), c),
{
    if g is Some {
        let rd = g->0;
        assert forall|i: int| 0 <= i < group_part(g, unit).len() implies group_part(g, unit)[i]
            != c by {
            if i < rd.len() {
                assert(group_part(g, unit)[i] == rd[i]);
                assert(is_digit(rd[i]));
            } else {
                assert(group_part(g, unit)[i] == unit);
            }
        }
    }
}

/// The rendering of well-formed groups holds no character `c` outside its
/// alphabet: the leading `'P'`, digits, the unit letters, and — only under
/// the separator — the `'T'`.
proof fn lemma_render_chars(g: FullGroups, c: char)
    requires
        groups_wf(g),
        !is_digit(c),
        c != 'P' && c != 'Y' && c != 'M' && c != 'D' && c != 'H' && c != 'S',
        c == 'T' ==> !g.has_time,
    ensures
        no_char(render_groups(g), c),
{
    let py = group_part(g.years, 'Y');
    let pmo = group_part(g.months, 'M');
    let pda = group_part(g.days, 'D');
    let pt = if g.has_time {
        seq!['T']
    } else {
        Seq::<char>::empty()
    };
    let ph = group_part(g.hours, 'H');
    let pmi = group_part(g.minutes, 'M');
    let pse = group_part(g.seconds, 'S');
    assert(no_char(seq!['P'], c));
    lemma_no_char_group_part(g.years, 'Y', c);
    lemma_no_char_group_part(g.months, 'M', c);
    lemma_no_char_group_part(g.days, 'D', c);
    assert(no_char(pt, c));
    lemma_no_char_group_part(g.hours, 'H', c);
    lemma_no_char_group_part(g.minutes, 'M', c);
    lemma_no_char_group_part(g.seconds, 'S', c);
    lemma_no_char_concat(seq!['P'], py, c);
    lemma_no_char_concat(seq!['P'] + py, pmo, c);
    lemma_no_char_concat(seq!['P'] + py + pmo, pda, c);
    lemma_no_char_concat(seq!['P'] + py + pmo + pda, pt, c);
    lemma_no_char_concat(seq!['P'] + py + pmo + pda + pt, ph, c);
    lemma_no_char_concat(seq!['P'] + py + pmo + pda + pt + ph, pmi, c);
    lemma_no_char_concat(seq!['P'] + py + pmo + pda + pt + ph + pmi, pse, c);
}

/// Concatenation of eight pieces, re-associated to the right.
proof fn lemma_assoc_eight(
    a: Seq<char>,
    b: Seq<char>,
    c: Seq<char>,
    d: Seq<char>,
    e: Seq<char>,
    f: Seq<char>,
    g: Seq<char>,
    h: Seq<char>,
)
    ensures
        a + b + c + d + e + f + g + h == a + (b + (c + (d + (e + (f + (g + h)))))),
{
    assert(a + b + c + d + e + f + g + h =~= a + (b + (c + (d + (e + (f + (g + h)))))));
}

/// The suffix of `s` from `i` splits as `head + tail` exactly when the
/// suffix from `i + head.len()` is `tail`.
proof fn lemma_suffix_split(s: Seq<char>, i: int, head: Seq<char>, tail: Seq<char>)
    requires
        0 <= i <= s.len(),
        s.subrange(i, s.len() as int) == head + tail,
    ensures
        i + head.len() <= s.len(),
        s.subrange(i + head.len(), s.len() as int) == tail,
{
    let n = head.len() as int;
    assert(s.subrange(i, s.len() as int).len() == s.len() - i);
    assert((head + tail).len() == n + tail.len());
    assert(s.len() - i == n + tail.len());
    assert forall|m: int| 0 <= m < tail.len() implies s.subrange(i + n, s.len() as int)[m]
        == tail[m] by {
        assert(s.subrange(i + n, s.len() as int)[m] == s[i + n + m]);
        assert(s[i + n + m] == s.subrange(i, s.len() as int)[n + m]);
        assert((head + tail)[n + m] == tail[m]);
    }
    assert(s.subrange(i + n, s.len() as int) =~= tail);
}

/// No non-empty digit run at the start of `rest` is followed by `unit`, so
/// scanning for a group `<digits><unit>` at the start of `rest` finds none.
pub open spec fn rest_safe(rest: Seq<char>, unit: char) -> bool {
    let j = digit_run_end(rest, 0);
    !(0 < j && j < rest.len() && rest[j] == unit)
}

proof fn lemma_rest_safe_group(rest: Seq<char>, g2: Option<Seq<char>>, u2: char, tail: Seq<char>, unit: char)
    requires
        g2 is Some,
        group_wf(g2),
        rest == group_part(g2, u2) + tail,
        u2 != unit,
        !is_digit(u2),
    ensures
        rest_safe(rest, unit),
{
    let rd = g2->0;
    assert forall|k: int| 0 <= k < rd.len() implies is_digit(#[trigger] rest[k]) by {
        assert(rest[k] == group_part(g2, u2)[k]);
        assert(group_part(g2, u2)[k] == rd[k]);
    }
    assert(rest[rd.len() as int] == u2);
    lemma_digit_run_end_is(rest, 0, rd.len() as int);
}

/// The digit run in `s` from `i + k` mirrors the run in the suffix
/// `s.subrange(i, s.len())` from `k`.
proof fn lemma_run_shift(s: Seq<char>, i: int, k: int)
    requires
        0 <= i <= s.len(),
        0 <= k <= s.len() - i,
    ensures
        digit_run_end(s, i + k) == i + digit_run_end(s.subrange(i, s.len() as int), k),
    decreases s.len() - i - k,
{
    let r = s.subrange(i, s.len() as int);
    if i + k < s.len() && is_digit(s[i + k]) {
        assert(r[k] == s[i + k]);
        lemma_run_shift(s, i, k + 1);
    } else {
        if k < r.len() {
            assert(r[k] == s[i + k]);
        }
    }
}

/// How `scan_group` behaves at a position whose suffix is the text of one
/// well-formed group followed by `rest`: a present group is captured as its
/// digits and the position moves past it; an absent group renders as
/// nothing, and a safe `rest` leaves the group absent and the position
/// unmoved. Either way the suffix at the resulting position is `rest`.
proof fn lemma_scan_at(s: Seq<char>, i: int, g: Option<Seq<char>>, unit: char, rest: Seq<char>)
    requires
        0 <= i <= s.len(),
        group_wf(g),
        s.subrange(i, s.len() as int) == group_part(g, unit) + rest,
        !is_digit(unit),
        g is None ==> rest_safe(rest, unit),
    ensures
        ({
            let r = scan_group(s, i, unit);
            &&& r.0 == g
            &&& i <= r.1 <= s.len()
            &&& s.subrange(r.1, s.len() as int) == rest
        }),
{
    let r = s.subrange(i, s.len() as int);
    if g is Some {
        let rd = g->0;
        let j = i + rd.len() as int;
        assert(r.len() == rd.len() + 1 + rest.len());
        assert forall|k: int| i <= k < j implies is_digit(#[trigger] s[k]) by {
            assert(s[k] == r[k - i]);
            assert(r[k - i] == (group_part(g, unit) + rest)[k - i]);
            assert(r[k - i] == rd[k - i]);
        }
        assert(s[j] == r[rd.len() as int]);
        assert(r[rd.len() as int] == unit);
        lemma_digit_run_end_is(s, i, j);
        assert(i < j && j < s.len() && s[j] == unit);
        assert(scan_group(s, i, unit).0 == Some(s.subrange(i, j)));
        assert(s.subrange(i, j) =~= rd);
        assert(scan_group(s, i, unit).1 == j + 1);
        assert(group_part(g, unit).len() == rd.len() + 1);
        assert forall|m: int| 0 <= m < rest.len() implies s.subrange(j + 1, s.len() as int)[m]
            == rest[m] by {
            assert(s.subrange(j + 1, s.len() as int)[m] == s[j + 1 + m]);
            assert(s[j + 1 + m] == r[rd.len() + 1 + m]);
            assert(r[rd.len() + 1 + m] == rest[m]);
        }
        assert(s.subrange(j + 1, s.len() as int) =~= rest);
    } else {
        assert(r =~= rest);
        lemma_digit_run_end_bounds(rest, 0);
        let j0 = digit_run_end(rest, 0);
        lemma_run_shift(s, i, 0);
        assert(digit_run_end(s, i) == i + j0);
        let j = i + j0;
        if 0 < j0 && j0 < rest.len() {
            assert(s[j] == r[j0]);
        }
        assert(!(i < j && j < s.len() && s[j] == unit));
        assert(scan_group(s, i, unit) == (None::<Seq<char>>, i));
    }
}

proof fn lemma_rest_safe_head(rest: Seq<char>, unit: char)
    requires
        rest.len() == 0 || !is_digit(rest[0]),
    ensures
        rest_safe(rest, unit),
{
    assert(digit_run_end(rest, 0) == 0);
}

/// Scanning the three calendar groups of a rendered match: each well-formed
/// group is captured exactly, and the scan stops at the rendered suffix
/// `rest`.
proof fn lemma_scan_date(
    s: Seq<char>,
    gy: Option<Seq<char>>,
    gmo: Option<Seq<char>>,
    gda: Option<Seq<char>>,
    rest: Seq<char>,
)
    requires
        1 <= s.len(),
        group_wf(gy) && group_wf(gmo) && group_wf(gda),
        s.subrange(1, s.len() as int) == group_part(gy, 'Y') + (group_part(gmo, 'M') + (group_part(
            gda,
            'D',
        ) + rest)),
        rest.len() == 0 || !is_digit(rest[0]),
    ensures
        ({
            let ry = scan_group(s, 1, 'Y');
            let rmo = scan_group(s, ry.1, 'M');
            let rd = scan_group(s, rmo.1, 'D');
            &&& ry.0 == gy
            &&& rmo.0 == gmo
            &&& rd.0 == gda
            &&& 1 <= rd.1 <= s.len()
            &&& s.subrange(rd.1, s.len() as int) == rest
        }),
{
    let r1 = group_part(gmo, 'M') + (group_part(gda, 'D') + rest);
    let r2 = group_part(gda, 'D') + rest;
    if gy is None {
        assert(rest_safe(r1, 'Y')) by {
            if gmo is Some {
                lemma_rest_safe_group(r1, gmo, 'M', r2, 'Y');
            } else {
                assert(r1 =~= r2);
                if gda is Some {
                    lemma_rest_safe_group(r2, gda, 'D', rest, 'Y');
                } else {
                    assert(r2 =~= rest);
                    lemma_rest_safe_head(rest, 'Y');
                }
            }
        }
    }
    lemma_scan_at(s, 1, gy, 'Y', r1);
    let i1 = scan_group(s, 1, 'Y').1;
    if gmo is None {
        assert(rest_safe(r2, 'M')) by {
            if gda is Some {
                lemma_rest_safe_group(r2, gda, 'D', rest, 'M');
            } else {
                assert(r2 =~= rest);
                lemma_rest_safe_head(rest, 'M');
            }
        }
    }
    lemma_scan_at(s, i1, gmo, 'M', r2);
    let i2 = scan_group(s, i1, 'M').1;
    if gda is None {
        lemma_rest_safe_head(rest, 'D');
    }
    lemma_scan_at(s, i2, gda, 'D', rest);
}

/// Scanning the three clock groups of a rendered match, placed at the end
/// of the text: each well-formed group is captured exactly, and the scan
/// stops at the end.
proof fn lemma_scan_clock(
    s: Seq<char>,
    i: int,
    gh: Option<Seq<char>>,
    gmi: Option<Seq<char>>,
    gse: Option<Seq<char>>,
)
    requires
        0 <= i <= s.len(),
        group_wf(gh) && group_wf(gmi) && group_wf(gse),
        s.subrange(i, s.len() as int) == group_part(gh, 'H') + (group_part(gmi, 'M') + (group_part(
            gse,
            'S',
        ) + Seq::<char>::empty())),
    ensures
        ({
            let rh = scan_group(s, i, 'H');
            let rmi = scan_group(s, rh.1, 'M');
            let rs = scan_group(s, rmi.1, 'S');
            &&& rh.0 == gh
            &&& rmi.0 == gmi
            &&& rs.0 == gse
            &&& rs.1 == s.len()
        }),
{
    let empty = Seq::<char>::empty();
    let r5 = group_part(gmi, 'M') + (group_part(gse, 'S') + empty);
    let r6 = group_part(gse, 'S') + empty;
    if gh is None {
        assert(rest_safe(r5, 'H')) by {
            if gmi is Some {
                lemma_rest_safe_group(r5, gmi, 'M', r6, 'H');
            } else {
                assert(r5 =~= r6);
                if gse is Some {
                    lemma_rest_safe_group(r6, gse, 'S', empty, 'H');
                } else {
                    assert(r6 =~= empty);
                    lemma_rest_safe_head(r6, 'H');
                }
            }
        }
    }
    lemma_scan_at(s, i, gh, 'H', r5);
    let i4 = scan_group(s, i, 'H').1;
    if gmi is None {
        assert(rest_safe(r6, 'M')) by {
            if gse is Some {
                lemma_rest_safe_group(r6, gse, 'S', empty, 'M');
            } else {
                assert(r6 =~= empty);
                lemma_rest_safe_head(r6, 'M');
            }
        }
    }
    lemma_scan_at(s, i4, gmi, 'M', r6);
    let i5 = scan_group(s, i4, 'M').1;
    lemma_rest_safe_head(empty, 'S');
    lemma_scan_at(s, i5, gse, 'S', empty);
    let i6 = scan_group(s, i5, 'S').1;
    assert(s.subrange(i6, s.len() as int).len() == 0);
}

/// Completeness of the full-grammar scan: the rendering of any well-formed
/// set of groups is matched, and the groups are recovered exactly.
#[verifier::rlimit(100)]
pub proof fn lemma_full_grammar_complete(g: FullGroups)
    ensures
        groups_wf(g) ==> scan_full(render_groups(g)) == Some(g),
{
    if !groups_wf(g) {
        return ;
    }
    let s = render_groups(g);
    let empty = Seq::<char>::empty();
    let py = group_part(g.years, 'Y');
    let pmo = group_part(g.months, 'M');
    let pda = group_part(g.days, 'D');
    let pt = if g.has_time {
        seq!['T']
    } else {
        empty
    };
    let ph = group_part(g.hours, 'H');
    let pmi = group_part(g.minutes, 'M');
    let pse = group_part(g.seconds, 'S');
    assert(s == seq!['P'] + py + pmo + pda + pt + ph + pmi + pse);
    lemma_assoc_eight(seq!['P'], py, pmo, pda, pt, ph, pmi, pse);

    assert(pse + empty =~= pse);
    let rest = pt + (ph + (pmi + (pse + empty)));
    assert(s.len() >= 1 && s[0] == 'P');
    assert(s.subrange(0, s.len() as int) =~= s);
    lemma_suffix_split(s, 0, seq!['P'], py + (pmo + (pda + rest)));
    assert(s.subrange(1, s.len() as int) == py + (pmo + (pda + rest)));
    assert(rest.len() == 0 || !is_digit(rest[0])) by {
        if g.has_time {
            assert(rest[0] == 'T');
        } else {
            assert(rest =~= empty);
        }
    }
    lemma_scan_date(s, g.years, g.months, g.days, rest);
    let i1 = scan_group(s, 1, 'Y').1;
    let i2 = scan_group(s, i1, 'M').1;
    let i3 = scan_group(s, i2, 'D').1;
    assert(s.subrange(i3, s.len() as int) == rest);

    if g.has_time {
        assert(rest[0] == 'T');
        assert(rest.len() == s.len() - i3);
        assert(i3 < s.len());
        assert(s[i3] == rest[0]);
        let r4 = ph + (pmi + (pse + empty));
        assert(rest == seq!['T'] + r4);
        lemma_suffix_split(s, i3, seq!['T'], r4);
        assert(s.subrange(i3 + 1, s.len() as int) == r4);
        lemma_scan_clock(s, i3 + 1, g.hours, g.minutes, g.seconds);
        assert(scan_full(s) == Some(g));
    } else {
        assert(rest =~= empty);
        assert(s.len() - i3 == 0);
        assert(!(i3 < s.len() && s[i3] == 'T'));
        assert(scan_full(s) == Some(g));
    }
}

/// One step of the decomposition: whatever `scan_group` returns at `i`, the
/// text it walked over is exactly the rendering of the captured group.
proof fn lemma_scan_group_decomp(s: Seq<char>, i: int, unit: char)
    requires
        0 <= i <= s.len(),
    ensures
        ({
            let r = scan_group(s, i, unit);
            &&& group_wf(r.0)
            &&& i <= r.1 <= s.len()
            &&& s.subrange(i, r.1) == group_part(r.0, unit)
        }),
{
    let j = digit_run_end(s, i);
    lemma_digit_run_end_bounds(s, i);
    lemma_digit_run_digits(s, i);
    if i < j && j < s.len() && s[j] == unit {
        let ds = s.subrange(i, j);
        assert forall|k: int| 0 <= k < ds.len() implies is_digit(#[trigger] ds[k]) by {
            assert(ds[k] == s[i + k]);
        }
        assert(s.subrange(i, j + 1) =~= ds + seq![unit]);
    } else {
        assert(s.subrange(i, i) =~= Seq::<char>::empty());
    }
}

/// Adjacent subranges concatenate to the enclosing subrange.
proof fn lemma_subrange_glue(s: Seq<char>, a: int, b: int, c: int)
    requires
        0 <= a <= b <= c <= s.len(),
    ensures
        s.subrange(a, b) + s.subrange(b, c) == s.subrange(a, c),
{
    assert(s.subrange(a, b) + s.subrange(b, c) =~= s.subrange(a, c));
}

/// Soundness of the full-grammar scan: a matched string is exactly the
/// rendering of the well-formed groups that the scan captured.
#[verifier::rlimit(100)]
pub proof fn lemma_full_grammar_sound(s: Seq<char>)
    requires
        scan_full(s) is Some,
    ensures
        ({
            let g = scan_full(s)->Some_0;
            &&& groups_wf(g)
            &&& render_groups(g) == s
        }),
{
    assert(s.len() >= 1 && s[0] == 'P');
    lemma_scan_group_decomp(s, 1, 'Y');
    let i1 = scan_group(s, 1, 'Y').1;
    lemma_scan_group_decomp(s, i1, 'M');
    let i2 = scan_group(s, i1, 'M').1;
    lemma_scan_group_decomp(s, i2, 'D');
    let i3 = scan_group(s, i2, 'D').1;
    assert(s.subrange(0, 1) =~= seq!['P']);
    lemma_subrange_glue(s, 0, 1, i1);
    lemma_subrange_glue(s, 0, i1, i2);
    lemma_subrange_glue(s, 0, i2, i3);
    let empty = Seq::<char>::empty();
    if i3 < s.len() && s[i3] == 'T' {
        lemma_scan_group_decomp(s, i3 + 1, 'H');
        let i4 = scan_group(s, i3 + 1, 'H').1;
        lemma_scan_group_decomp(s, i4, 'M');
        let i5 = scan_group(s, i4, 'M').1;
        lemma_scan_group_decomp(s, i5, 'S');
        let i6 = scan_group(s, i5, 'S').1;
        assert(i6 == s.len());
        assert(s.subrange(i3, i3 + 1) =~= seq!['T']);
        lemma_subrange_glue(s, 0, i3, i3 + 1);
        lemma_subrange_glue(s, 0, i3 + 1, i4);
        lemma_subrange_glue(s, 0, i4, i5);
        lemma_subrange_glue(s, 0, i5, i6);
        assert(s.subrange(0, s.len() as int) =~= s);
    } else {
        assert(i3 == s.len());
        assert(s.subrange(0, s.len() as int) =~= s);
        let x = s.subrange(0, i3);
        assert(x + empty =~= x);
    }
}

proof fn lemma_roundtrip_weeks(weeks: u64)
    ensures
        spec_parse(spec_format(Duration::Weeks { weeks })) == Ok::<Duration, ParseError>(
            Duration::Weeks { weeks },
        ),
{
    let s = spec_format(Duration::Weeks { weeks });
    let rd = dec_repr(weeks as int);
    lemma_dec_repr(weeks as int);
    assert(s == seq!['P'] + rd + seq!['W']);
    assert(s.len() == rd.len() + 2);
    assert(s[0] == 'P');
    assert(s[s.len() - 1] == 'W');
    let mid = s.subrange(1, s.len() - 1);
    assert(mid =~= rd);
    assert(weeks_match(s));
    assert(weeks_digits(s) == mid);
    assert(mid.len() > 0);
}

/// The digit groups that scanning must recover from the rendering of a
/// full duration: each non-zero field as its canonical digits.
spec fn expected_groups(
    years: u64,
    months: u8,
    days: u8,
    hours: u8,
    minutes: u8,
    seconds: u8,
) -> FullGroups {
    FullGroups {
        years: if years > 0 {
            Some(dec_repr(years as int))
        } else {
            None
        },
        months: if months > 0 {
            Some(dec_repr(months as int))
        } else {
            None
        },
        days: if days > 0 {
            Some(dec_repr(days as int))
        } else {
            None
        },
        has_time: hours > 0 || minutes > 0 || seconds > 0,
        hours: if hours > 0 {
            Some(dec_repr(hours as int))
        } else {
            None
        },
        minutes: if minutes > 0 {
            Some(dec_repr(minutes as int))
        } else {
            None
        },
        seconds: if seconds > 0 {
            Some(dec_repr(seconds as int))
        } else {
            None
        },
    }
}

/// The canonical rendering of a full duration is the rendering of its
/// expected groups, which are well formed.
proof fn lemma_format_renders(
    years: u64,
    months: u8,
    days: u8,
    hours: u8,
    minutes: u8,
    seconds: u8,
)
    ensures
        groups_wf(expected_groups(years, months, days, hours, minutes, seconds)),
        spec_format(Duration::Full { years, months, days, hours, minutes, seconds })
            == render_groups(expected_groups(years, months, days, hours, minutes, seconds)),
{
    let g = expected_groups(years, months, days, hours, minutes, seconds);
    lemma_dec_repr(years as int);
    lemma_dec_repr(months as int);
    lemma_dec_repr(days as int);
    lemma_dec_repr(hours as int);
    lemma_dec_repr(minutes as int);
    lemma_dec_repr(seconds as int);
    assert(field_part(years as int, 'Y') == group_part(g.years, 'Y'));
    assert(field_part(months as int, 'M') == group_part(g.months, 'M'));
    assert(field_part(days as int, 'D') == group_part(g.days, 'D'));
    assert(field_part(hours as int, 'H') == group_part(g.hours, 'H'));
    assert(field_part(minutes as int, 'M') == group_part(g.minutes, 'M'));
    assert(field_part(seconds as int, 'S') == group_part(g.seconds, 'S'));
}

/// Structural mutual exclusivity: no string matches both grammars, since a
/// weeks match ends in `'W'` and the full grammar's alphabet has no `'W'`.
pub proof fn lemma_grammars_disjoint(s: Seq<char>)
    ensures
        !(weeks_match(s) && scan_full(s) is Some),
{
    if weeks_match(s) && scan_full(s) is Some {
        lemma_full_grammar_sound(s);
        let g = scan_full(s)->Some_0;
        lemma_render_chars(g, 'W');
        assert(s[s.len() - 1] == 'W');
        assert(false);
    }
}

proof fn lemma_full_scan(years: u64, months: u8, days: u8, hours: u8, minutes: u8, seconds: u8)
    ensures
        ({
            let s = spec_format(Duration::Full { years, months, days, hours, minutes, seconds });
            &&& !weeks_match(s)
            &&& scan_full(s) == Some(expected_groups(years, months, days, hours, minutes, seconds))
        }),
{
    let d = Duration::Full { years, months, days, hours, minutes, seconds };
    let s = spec_format(d);
    let g = expected_groups(years, months, days, hours, minutes, seconds);
    lemma_format_renders(years, months, days, hours, minutes, seconds);
    lemma_full_grammar_complete(g);
    lemma_grammars_disjoint(s);
}

proof fn lemma_roundtrip_full(
    years: u64,
    months: u8,
    days: u8,
    hours: u8,
    minutes: u8,
    seconds: u8,
)
    ensures
        ({
            let d = Duration::Full { years, months, days, hours, minutes, seconds };
            spec_parse(spec_format(d)) == Ok::<Duration, ParseError>(d)
        }),
{
    let d = Duration::Full { years, months, days, hours, minutes, seconds };
    let s = spec_format(d);
    lemma_full_scan(years, months, days, hours, minutes, seconds);
    let g = expected_groups(years, months, days, hours, minutes, seconds);
    lemma_dec_repr(years as int);
    lemma_dec_repr(months as int);
    lemma_dec_repr(days as int);
    lemma_dec_repr(hours as int);
    lemma_dec_repr(minutes as int);
    lemma_dec_repr(seconds as int);
    assert(groups_fit(g));
    assert(groups_value(g) == d);
}

/// Round trip: parsing the canonical rendering of any duration — either
/// variant, any field values — yields exactly that duration back.
pub proof fn lemma_parse_format_roundtrip(d: Duration)
    ensures
        spec_parse(spec_format(d)) == Ok::<Duration, ParseError>(d),
{
    match d {
        Duration::Weeks { weeks } => lemma_roundtrip_weeks(weeks),
        Duration::Full { years, months, days, hours, minutes, seconds } => lemma_roundtrip_full(
            years,
            months,
            days,
            hours,
            minutes,
            seconds,
        ),
    }
}

/// Mutual exclusivity of the grammars, weeks first: a string matching the
/// weeks grammar is never interpreted through the full grammar, so parsing
/// it can only yield a `Weeks` value (or fail).
pub proof fn lemma_weeks_precedence(s: Seq<char>)
    requires
        weeks_match(s),
    ensures
        spec_parse(s) matches Ok(d) ==> d is Weeks,
{
}

/// The time-separator rule: when the clock fields are all zero, the
/// rendering holds no `'T'` at all, whatever the calendar fields hold.
pub proof fn lemma_no_time_separator(years: u64, months: u8, days: u8)
    ensures
        no_char(
            spec_format(
                Duration::Full { years, months, days, hours: 0, minutes: 0, seconds: 0 },
            ),
            'T',
        ),
{
    lemma_format_renders(years, months, days, 0, 0, 0);
    lemma_render_chars(expected_groups(years, months, days, 0, 0, 0), 'T');
}

} // verus!

