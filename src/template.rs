//! The template grammar: timestamped lines carrying usage markers.
use vstd::prelude::*;
use crate::models::{CooldownUsage, UsageModel, strings_view, usages_view};
use crate::text::{
    all_digits, chars_of, dec, digit_value, find, find_exec, lemma_dec_nonneg, lemma_find_bounds,
    lemma_rfind_bounds, lemma_split_len, parse_dec, rfind, rfind_exec, slice_exec, split_exec, split_on,
    string_of, trim, trim_exec, trimmed, pieces_view,
};

verus! {

/// A usage's value when its marker gives none, in millionths.
pub const WEIGHT_SCALE: u64 = 1000000;

pub open spec fn time_open() -> Seq<char> {
    seq!['{', 't', 'i', 'm', 'e', ':']
}

pub open spec fn marker_open() -> Seq<char> {
    seq!['{', '{']
}

pub open spec fn marker_close() -> Seq<char> {
    seq!['}', '}']
}

/// The text between `{time:` and the next `}`, if the line has both.
pub open spec fn time_spec(line: Seq<char>) -> Option<Seq<char>> {
    match find(line, time_open(), 0) {
        None => None,
        Some(p) => match find(line, seq!['}'], p + 6) {
            None => None,
            Some(q) => Some(line.subrange(p + 6, q)),
        },
    }
}

/// Seconds of a timestamp: a bare integer, or minutes and seconds around a `:`.
pub open spec fn time_value(ts: Seq<char>) -> Option<int> {
    match find(ts, seq![':'], 0) {
        None => if ts.len() > 0 && all_digits(ts) {
            Some(dec(ts))
        } else {
            None
        },
        Some(c) => {
            let m = ts.take(c);
            let s = ts.skip(c + 1);
            if m.len() > 0 && s.len() > 0 && all_digits(m) && all_digits(s) {
                Some(60 * dec(m) + dec(s))
            } else {
                None
            }
        },
    }
}

/// The first marker at or after `i`: the bounds of the text between `{{` and `}}`.
pub open spec fn next_marker(line: Seq<char>, i: int) -> Option<(int, int)> {
    match find(line, marker_open(), i) {
        None => None,
        Some(p) => match find(line, marker_close(), p + 2) {
            None => None,
            Some(q) => Some((p + 2, q)),
        },
    }
}

/// All markers from `i` on, left to right.
pub open spec fn markers(line: Seq<char>, i: int) -> Seq<(int, int)>
    decreases line.len() + 1 - i,
{
    match next_marker(line, i) {
        None => Seq::empty(),
        Some((a, b)) => if i < b + 2 <= line.len() {
            seq![(a, b)] + markers(line, b + 2)
        } else {
            Seq::empty()
        },
    }
}

/// A marker's text split into its tag list and its weight literal, if it ends in `<...>`.
pub open spec fn weight_split(inner: Seq<char>) -> (Seq<char>, Option<Seq<char>>) {
    if inner.len() > 0 && inner.last() == '>' {
        match rfind(inner.drop_last(), '<') {
            Some(l) => (inner.take(l), Some(inner.subrange(l + 1, inner.len() - 1))),
            None => (inner, None),
        }
    } else {
        (inner, None)
    }
}

pub open spec fn frac_digit(f: Seq<char>, k: int) -> int {
    if k < f.len() {
        digit_value(f[k])
    } else {
        0
    }
}

/// The first six digits after the point, in millionths.
pub open spec fn frac_units(f: Seq<char>) -> int {
    100000 * frac_digit(f, 0) + 10000 * frac_digit(f, 1) + 1000 * frac_digit(f, 2) + 100
        * frac_digit(f, 3) + 10 * frac_digit(f, 4) + frac_digit(f, 5)
}

/// A weight literal in millionths: digits, with an optional point and fraction.
pub open spec fn weight_value(lit: Seq<char>) -> Option<int> {
    match find(lit, seq!['.'], 0) {
        None => if lit.len() > 0 && all_digits(lit) {
            Some(dec(lit) * WEIGHT_SCALE)
        } else {
            None
        },
        Some(d) => {
            let ip = lit.take(d);
            let fp = lit.skip(d + 1);
            if lit.len() > 1 && all_digits(ip) && all_digits(fp) {
                Some(dec(ip) * WEIGHT_SCALE + frac_units(fp))
            } else {
                None
            }
        },
    }
}

pub open spec fn time_error(ts: Seq<char>) -> Seq<char> {
    "Unrecognized time format -- "@ + ts
}

pub open spec fn value_error(lit: Seq<char>) -> Seq<char> {
    "Unrecognized value format -- "@ + lit
}

pub open spec fn overflow_error() -> Seq<char> {
    "Too many usages"@
}

pub open spec fn tags_of(names: Seq<char>) -> Seq<Seq<char>> {
    trimmed(split_on(names, '/'))
}

/// The usage that one marker's text stands for.
pub open spec fn marker_event(inner: Seq<char>, uid: int, at: int) -> Result<UsageModel, Seq<char>> {
    let (names, lit) = weight_split(inner);
    if uid > u64::MAX {
        Err(overflow_error())
    } else {
        match lit {
            None => Ok(UsageModel { uid, at, value: WEIGHT_SCALE as int, tags: tags_of(names) }),
            Some(l) => match weight_value(l) {
                Some(v) => if v <= u64::MAX {
                    Ok(UsageModel { uid, at, value: v, tags: tags_of(names) })
                } else {
                    Err(value_error(l))
                },
                None => Err(value_error(l)),
            },
        }
    }
}

/// The usages of the markers `ms` of a line, numbered from `uid`.
pub open spec fn marker_events(line: Seq<char>, ms: Seq<(int, int)>, uid: int, at: int) -> Result<
    Seq<UsageModel>,
    Seq<char>,
>
    decreases ms.len(),
{
    if ms.len() == 0 {
        Ok(Seq::empty())
    } else {
        match marker_events(line, ms.drop_last(), uid, at) {
            Err(e) => Err(e),
            Ok(evs) => match marker_event(
                line.subrange(ms.last().0, ms.last().1),
                uid + evs.len(),
                at,
            ) {
                Err(e) => Err(e),
                Ok(ev) => Ok(evs.push(ev)),
            },
        }
    }
}

/// The usages of one line, numbered from `uid`; a line without a timestamp has none.
pub open spec fn line_events(line: Seq<char>, uid: int) -> Result<Seq<UsageModel>, Seq<char>> {
    match time_spec(line) {
        None => Ok(Seq::empty()),
        Some(ts) => match time_value(ts) {
            Some(t) => if t <= u64::MAX {
                marker_events(line, markers(line, 0), uid, t)
            } else {
                Err(time_error(ts))
            },
            None => Err(time_error(ts)),
        },
    }
}

/// The usages of all lines, numbered from 1 in document order; the first error stops it.
pub open spec fn lines_events(ls: Seq<Seq<char>>) -> Result<Seq<UsageModel>, Seq<char>>
    decreases ls.len(),
{
    if ls.len() == 0 {
        Ok(Seq::empty())
    } else {
        match lines_events(ls.drop_last()) {
            Err(e) => Err(e),
            Ok(evs) => match line_events(ls.last(), evs.len() as int + 1) {
                Err(e) => Err(e),
                Ok(new) => Ok(evs + new),
            },
        }
    }
}

pub open spec fn parse_template(s: Seq<char>) -> Result<Seq<UsageModel>, Seq<char>> {
    lines_events(split_on(s, '\n'))
}

pub proof fn lemma_markers_wf(line: Seq<char>, i: int)
    requires
        0 <= i,
    ensures
        forall|k: int|
            0 <= k < markers(line, i).len() ==> {
                let (a, b) = #[trigger] markers(line, i)[k];
                &&& i + 2 <= a <= b
                &&& b + 2 <= line.len()
            },
        forall|k: int|
            0 <= k < markers(line, i).len() - 1 ==> markers(line, i)[k].1 + 2 + 2 <= markers(
                line,
                i,
            )[k + 1].0,
        markers(line, i).len() > 0 ==> markers(line, i) == seq![markers(line, i)[0]] + markers(
            line,
            markers(line, i)[0].1 + 2,
        ),
    decreases line.len() + 1 - i,
{
    lemma_find_bounds(line, marker_open(), i);
    match find(line, marker_open(), i) {
        None => {},
        Some(p) => {
            lemma_find_bounds(line, marker_close(), p + 2);
            match find(line, marker_close(), p + 2) {
                None => {},
                Some(q) => {
                    if i < q + 2 <= line.len() {
                        lemma_markers_wf(line, q + 2);
                        let rest = markers(line, q + 2);
                        let all = markers(line, i);
                        assert(all == seq![(p + 2, q)] + rest);
                        assert forall|k: int| 0 <= k < all.len() implies {
                            let (a, b) = #[trigger] all[k];
                            &&& i + 2 <= a <= b
                            &&& b + 2 <= line.len()
                        } by {
                            if k > 0 {
                                assert(all[k] == rest[k - 1]);
                            }
                        }
                        assert forall|k: int| 0 <= k < all.len() - 1 implies all[k].1 + 2 + 2
                            <= all[k + 1].0 by {
                            assert(all[k + 1] == rest[k]);
                            if k > 0 {
                                assert(all[k] == rest[k - 1]);
                            }
                        }
                    }
                },
            }
        },
    }
}


pub proof fn lemma_marker_events_err(
    line: Seq<char>,
    ms: Seq<(int, int)>,
    j: int,
    uid: int,
    at: int,
)
    requires
        0 <= j <= ms.len(),
        marker_events(line, ms.take(j), uid, at) is Err,
    ensures
        marker_events(line, ms, uid, at) == marker_events(line, ms.take(j), uid, at),
    decreases ms.len() - j,
{
    if j < ms.len() {
        assert(ms.take(j + 1).drop_last() =~= ms.take(j));
        lemma_marker_events_err(line, ms, j + 1, uid, at);
    } else {
        assert(ms.take(j) =~= ms);
    }
}

pub proof fn lemma_lines_events_err(ls: Seq<Seq<char>>, j: int)
    requires
        0 <= j <= ls.len(),
        lines_events(ls.take(j)) is Err,
    ensures
        lines_events(ls) == lines_events(ls.take(j)),
    decreases ls.len() - j,
{
    if j < ls.len() {
        assert(ls.take(j + 1).drop_last() =~= ls.take(j));
        lemma_lines_events_err(ls, j + 1);
    } else {
        assert(ls.take(j) =~= ls);
    }
}

/// Appends `b` to `a`.
pub fn append_chars(a: &mut Vec<char>, b: &Vec<char>)
    ensures
        final(a)@ == old(a)@ + b@,
{
    let mut k: usize = 0;
    while k < b.len()
        invariant
            k <= b.len(),
            a@ == old(a)@ + b@.take(k as int),
        decreases b.len() - k,
    {
        a.push(b[k]);
        assert(a@ =~= old(a)@ + b@.take(k + 1));
        k += 1;
    }
    assert(b@.take(k as int) =~= b@);
}

fn all_digits_exec(s: &Vec<char>, a: usize, b: usize) -> (r: bool)
    requires
        a <= b <= s.len(),
    ensures
        r == all_digits(s@.subrange(a as int, b as int)),
{
    let mut k = a;
    while k < b
        invariant
            a <= k <= b <= s.len(),
            forall|i: int| a <= i < k ==> crate::text::is_digit(#[trigger] s@[i]),
        decreases b - k,
    {
        if !('0' <= s[k] && s[k] <= '9') {
            assert(!crate::text::is_digit(s@.subrange(a as int, b as int)[k - a]));
            return false;
        }
        k += 1;
    }
    assert forall|i: int| 0 <= i < b - a implies crate::text::is_digit(
        #[trigger] s@.subrange(a as int, b as int)[i],
    ) by {
        assert(s@.subrange(a as int, b as int)[i] == s@[a + i]);
    }
    true
}

fn frac_digit_exec(s: &Vec<char>, a: usize, b: usize, k: usize) -> (r: u64)
    requires
        a <= b <= s.len(),
        k <= 5,
        all_digits(s@.subrange(a as int, b as int)),
    ensures
        r == frac_digit(s@.subrange(a as int, b as int), k as int),
        r <= 9,
{
    if k < b - a {
        assert(crate::text::is_digit(s@.subrange(a as int, b as int)[k as int]));
        (s[a + k] as u32 - '0' as u32) as u64
    } else {
        0
    }
}

/// Parses a timestamp; `None` where it has neither form or does not fit in a `u64`.
pub fn time_value_exec(ts: &Vec<char>) -> (r: Option<u64>)
    ensures
        match r {
            Some(v) => time_value(ts@) == Some(v as int),
            None => time_value(ts@) is None || time_value(ts@)->0 > u64::MAX,
        },
{
    let colon = vec![':'];
    assert(colon@ =~= seq![':']);
    match find_exec(ts, &colon, 0) {
        None => {
            if ts.len() == 0 {
                return None;
            }
            assert(ts@.subrange(0, ts@.len() as int) =~= ts@);
            parse_dec(ts, 0, ts.len())
        },
        Some(c) => {
            proof {
                lemma_find_bounds(ts@, seq![':'], 0);
            }
            assert(c < ts.len());
            if c == 0 || c + 1 >= ts.len() {
                return None;
            }
            assert(ts@.subrange(0, c as int) =~= ts@.take(c as int));
            assert(ts@.subrange(c + 1, ts@.len() as int) =~= ts@.skip(c + 1));
            let m = parse_dec(ts, 0, c);
            let sec = parse_dec(ts, c + 1, ts.len());
            match (m, sec) {
                (Some(m), Some(sec)) => {
                    let v: u128 = 60 * (m as u128) + sec as u128;
                    if v > u64::MAX as u128 {
                        None
                    } else {
                        Some(v as u64)
                    }
                },
                _ => {
                    proof {
                        let mm = ts@.take(c as int);
                        let ss = ts@.skip(c + 1);
                        if all_digits(mm) && all_digits(ss) {
                            lemma_dec_nonneg(mm);
                            lemma_dec_nonneg(ss);
                        }
                    }
                    None
                },
            }
        },
    }
}

/// Parses a weight literal into millionths; `None` where it is no number or does not fit.
pub fn weight_value_exec(lit: &Vec<char>) -> (r: Option<u64>)
    ensures
        match r {
            Some(v) => weight_value(lit@) == Some(v as int),
            None => weight_value(lit@) is None || weight_value(lit@)->0 > u64::MAX,
        },
{
    let point = vec!['.'];
    assert(point@ =~= seq!['.']);
    match find_exec(lit, &point, 0) {
        None => {
            if lit.len() == 0 {
                return None;
            }
            assert(lit@.subrange(0, lit@.len() as int) =~= lit@);
            match parse_dec(lit, 0, lit.len()) {
                Some(n) => {
                    let v: u128 = n as u128 * 1000000;
                    if v > u64::MAX as u128 {
                        None
                    } else {
                        Some(v as u64)
                    }
                },
                None => None,
            }
        },
        Some(d) => {
            proof {
                lemma_find_bounds(lit@, seq!['.'], 0);
            }
            if lit.len() <= 1 {
                return None;
            }
            let ghost ip = lit@.take(d as int);
            let ghost fp = lit@.skip(d + 1);
            assert(lit@.subrange(0, d as int) =~= ip);
            assert(lit@.subrange(d + 1, lit@.len() as int) =~= fp);
            if !all_digits_exec(lit, d + 1, lit.len()) {
                return None;
            }
            match parse_dec(lit, 0, d) {
                Some(n) => {
                    let f0 = frac_digit_exec(lit, d + 1, lit.len(), 0);
                    let f1 = frac_digit_exec(lit, d + 1, lit.len(), 1);
                    let f2 = frac_digit_exec(lit, d + 1, lit.len(), 2);
                    let f3 = frac_digit_exec(lit, d + 1, lit.len(), 3);
                    let f4 = frac_digit_exec(lit, d + 1, lit.len(), 4);
                    let f5 = frac_digit_exec(lit, d + 1, lit.len(), 5);
                    let frac: u64 = 100000 * f0 + 10000 * f1 + 1000 * f2 + 100 * f3 + 10 * f4 + f5;
                    let v: u128 = n as u128 * 1000000 + frac as u128;
                    if v > u64::MAX as u128 {
                        None
                    } else {
                        Some(v as u64)
                    }
                },
                None => {
                    proof {
                        if all_digits(ip) {
                            assert(frac_units(fp) >= 0);
                        }
                    }
                    None
                },
            }
        },
    }
}

/// The timestamp text of a line, if it has a `{time:...}` marker.
pub fn time_spec_exec(line: &Vec<char>) -> (r: Option<Vec<char>>)
    ensures
        match r {
            Some(ts) => time_spec(line@) == Some(ts@),
            None => time_spec(line@) is None,
        },
{
    let open = vec!['{', 't', 'i', 'm', 'e', ':'];
    assert(open@ =~= time_open());
    let close = vec!['}'];
    assert(close@ =~= seq!['}']);
    match find_exec(line, &open, 0) {
        None => None,
        Some(p) => {
            proof {
                lemma_find_bounds(line@, time_open(), 0);
            }
            assert(time_open().len() == 6);
            assert(p + 6 <= line.len());
            match find_exec(line, &close, p + 6) {
                None => None,
                Some(q) => {
                    proof {
                        lemma_find_bounds(line@, seq!['}'], p + 6);
                    }
                    Some(slice_exec(line, p + 6, q))
                },
            }
        },
    }
}

pub open spec fn spans_view(v: Seq<(usize, usize)>) -> Seq<(int, int)> {
    v.map_values(|p: (usize, usize)| (p.0 as int, p.1 as int))
}

/// The markers of a line, left to right.
pub fn markers_exec(line: &Vec<char>) -> (r: Vec<(usize, usize)>)
    ensures
        spans_view(r@) == markers(line@, 0),
{
    let open = vec!['{', '{'];
    assert(open@ =~= marker_open());
    let close = vec!['}', '}'];
    assert(close@ =~= marker_close());
    let mut found: Vec<(usize, usize)> = Vec::new();
    let mut pos: usize = 0;
    assert(spans_view(found@) + markers(line@, 0) =~= markers(line@, 0));
    loop
        invariant
            pos <= line.len(),
            open@ == marker_open(),
            close@ == marker_close(),
            spans_view(found@) + markers(line@, pos as int) == markers(line@, 0),
        decreases line.len() - pos,
    {
        match find_exec(line, &open, pos) {
            None => {
                assert(markers(line@, pos as int) =~= Seq::<(int, int)>::empty());
                assert(spans_view(found@) =~= markers(line@, 0));
                return found;
            },
            Some(p) => {
                proof {
                    lemma_find_bounds(line@, marker_open(), pos as int);
                }
                assert(marker_open().len() == 2);
                assert(p + 2 <= line.len());
                match find_exec(line, &close, p + 2) {
                    None => {
                        assert(next_marker(line@, pos as int) is None);
                        assert(markers(line@, pos as int) =~= Seq::<(int, int)>::empty());
                        assert(spans_view(found@) =~= markers(line@, 0));
                        return found;
                    },
                    Some(q) => {
                        proof {
                            lemma_find_bounds(line@, marker_close(), p + 2);
                        }
                        assert(marker_close().len() == 2);
                        assert(q + 2 <= line.len());
                        let ghost old_found = found@;
                        found.push((p + 2, q));
                        assert(spans_view(found@) =~= spans_view(old_found).push(
                            (p + 2, q as int),
                        ));
                        assert(spans_view(found@) + markers(line@, q + 2) =~= spans_view(
                            old_found,
                        ) + markers(line@, pos as int));
                        pos = q + 2;
                    },
                }
            },
        }
    }
}

/// Builds the usage of the marker `line[a..b]`.
fn marker_event_exec(line: &Vec<char>, a: usize, b: usize, uid: u128, at: u64) -> (r: Result<
    CooldownUsage,
    Vec<char>,
>)
    requires
        a <= b <= line.len(),
    ensures
        match marker_event(line@.subrange(a as int, b as int), uid as int, at as int) {
            Ok(ev) => r is Ok && r->Ok_0@ == ev,
            Err(e) => r is Err && r->Err_0@ == e,
        },
{
    let inner = slice_exec(line, a, b);
    if uid > u64::MAX as u128 {
        return Err(chars_of("Too many usages"));
    }
    let mut names_end = inner.len();
    let mut lit: Option<Vec<char>> = None;
    if inner.len() > 0 && inner[inner.len() - 1] == '>' {
        assert(inner@.take(inner.len() - 1) =~= inner@.drop_last());
        match rfind_exec(&inner, inner.len() - 1, '<') {
            Some(l) => {
                proof {
                    lemma_rfind_bounds(inner@.drop_last(), '<');
                }
                names_end = l;
                lit = Some(slice_exec(&inner, l + 1, inner.len() - 1));
            },
            None => {},
        }
    }
    let ghost names = inner@.subrange(0, names_end as int);
    assert(weight_split(inner@).0 == names) by {
        assert(inner@.subrange(0, inner@.len() as int) =~= inner@);
        assert(inner@.take(names_end as int) =~= names);
    }
    let pieces = split_exec(&inner, 0, names_end, '/');
    let ghost pv = pieces_view(pieces@);
    let mut tags: Vec<String> = Vec::new();
    let mut k: usize = 0;
    while k < pieces.len()
        invariant
            k <= pieces.len(),
            pv == pieces_view(pieces@),
            strings_view(tags@) == trimmed(pv.take(k as int)),
        decreases pieces.len() - k,
    {
        let t = trim_exec(&pieces[k]);
        let g = string_of(&t);
        let ghost before = tags@;
        tags.push(g);
        assert(tags@ =~= before.push(g));
        assert(pv.take(k + 1) =~= pv.take(k as int).push(pv[k as int]));
        assert(g@ == trim(pv[k as int]));
        assert(strings_view(tags@) =~= strings_view(before).push(g@));
        assert(trimmed(pv.take(k + 1)) =~= trimmed(pv.take(k as int)).push(trim(pv[k as int])));
        assert(strings_view(tags@) =~= trimmed(pv.take(k + 1)));
        k += 1;
    }
    assert(pv.take(k as int) =~= pv);
    assert(strings_view(tags@) == tags_of(names));
    match lit {
        None => Ok(CooldownUsage { uid: uid as u64, at, value: WEIGHT_SCALE, group_names: tags }),
        Some(l) => match weight_value_exec(&l) {
            Some(v) => Ok(CooldownUsage { uid: uid as u64, at, value: v, group_names: tags }),
            None => {
                let mut e = chars_of("Unrecognized value format -- ");
                append_chars(&mut e, &l);
                Err(e)
            },
        },
    }
}

/// Parses one line's usages onto the end of `out`, numbering them after those already there.
fn line_events_exec(line: &Vec<char>, out: &mut Vec<CooldownUsage>) -> (r: Result<(), Vec<char>>)
    ensures
        match line_events(line@, old(out)@.len() as int + 1) {
            Ok(new) => r is Ok && usages_view(final(out)@) == usages_view(old(out)@) + new,
            Err(e) => r is Err && r->Err_0@ == e,
        },
{
    let ts = match time_spec_exec(line) {
        None => {
            assert(usages_view(out@) =~= usages_view(out@) + Seq::<UsageModel>::empty());
            return Ok(());
        },
        Some(ts) => ts,
    };
    let at = match time_value_exec(&ts) {
        Some(t) => t,
        None => {
            let mut e = chars_of("Unrecognized time format -- ");
            append_chars(&mut e, &ts);
            return Err(e);
        },
    };
    let ms = markers_exec(line);
    proof {
        lemma_markers_wf(line@, 0);
    }
    let ghost msv = spans_view(ms@);
    let ghost start = usages_view(out@);
    let ghost uid0: int = out@.len() as int + 1;
    let mut j: usize = 0;
    assert(msv.take(0) =~= Seq::<(int, int)>::empty());
    assert(line_events(line@, uid0) == marker_events(line@, msv, uid0, at as int));
    assert(start + Seq::<UsageModel>::empty() =~= start);
    while j < ms.len()
        invariant
            j <= ms.len(),
            msv == spans_view(ms@),
            msv == markers(line@, 0),
            forall|k: int|
                0 <= k < msv.len() ==> {
                    let (a, b) = #[trigger] msv[k];
                    &&& 0 + 2 <= a <= b
                    &&& b + 2 <= line@.len()
                },
            uid0 == old(out)@.len() as int + 1,
            line_events(line@, uid0) == marker_events(line@, msv, uid0, at as int),
            start == usages_view(old(out)@),
            out@.len() == old(out)@.len() + j,
            match marker_events(line@, msv.take(j as int), uid0, at as int) {
                Ok(evs) => usages_view(out@) == start + evs,
                Err(_) => false,
            },
        decreases ms.len() - j,
    {
        let (a, b) = ms[j];
        assert(msv[j as int] == (a as int, b as int));
        assert(msv.take(j + 1).drop_last() =~= msv.take(j as int));
        let ghost prev = marker_events(line@, msv.take(j as int), uid0, at as int)->Ok_0;
        assert(prev.len() == j) by {
            assert(usages_view(out@).len() == out@.len());
        }
        let uid: u128 = out.len() as u128 + 1;
        assert(msv.take(j + 1).last() == (a as int, b as int));
        match marker_event_exec(line, a, b, uid, at) {
            Ok(ev) => {
                let ghost evv = ev@;
                let ghost before = out@;
                out.push(ev);
                assert(out@ =~= before.push(ev));
                assert(usages_view(out@) =~= usages_view(before).push(evv));
                assert(msv.take(j + 1).last() == (a as int, b as int));
                assert(usages_view(out@) =~= start + prev.push(evv));
            },
            Err(e) => {
                assert(uid as int == uid0 + prev.len());
                assert(marker_event(line@.subrange(a as int, b as int), uid as int, at as int) is Err);
                assert(marker_events(line@, msv.take(j + 1), uid0, at as int) == Err::<Seq<UsageModel>, Seq<char>>(e@));
                proof {
                    lemma_marker_events_err(line@, msv, j + 1, uid0, at as int);
                }
                assert(line_events(line@, uid0) == marker_events(line@, msv, uid0, at as int));
                return Err(e);
            },
        }
        j += 1;
    }
    assert(msv.take(j as int) =~= msv);
    Ok(())
}

/// The usages that a template holds, in document order.
pub struct Template {
    pub usages: Vec<CooldownUsage>,
}

impl View for Template {
    type V = Seq<UsageModel>;

    open spec fn view(&self) -> Seq<UsageModel> {
        usages_view(self.usages@)
    }
}

impl Template {
    /// Reads the usages of a template; the error message names the text that is malformed.
    pub fn parse(template: &str) -> (r: Result<Template, String>)
        ensures
            match r {
                Ok(t) => parse_template(template@) == Ok::<Seq<UsageModel>, Seq<char>>(t@),
                Err(e) => parse_template(template@) == Err::<Seq<UsageModel>, Seq<char>>(e@)
                    && e@.len() > 0,
            },
    {
        let s = chars_of(template);
        assert(s@.subrange(0, s@.len() as int) =~= s@);
        let ls = split_exec(&s, 0, s.len(), '\n');
        let ghost lv = pieces_view(ls@);
        let mut usages: Vec<CooldownUsage> = Vec::new();
        let mut i: usize = 0;
        assert(lv.take(0) =~= Seq::<Seq<char>>::empty());
        assert(usages_view(usages@) =~= Seq::<UsageModel>::empty());
        while i < ls.len()
            invariant
                i <= ls.len(),
                lv == pieces_view(ls@),
                lv == split_on(template@, '\n'),
                lines_events(lv.take(i as int)) == Ok::<Seq<UsageModel>, Seq<char>>(
                    usages_view(usages@),
                ),
            decreases ls.len() - i,
        {
            assert(lv.take(i + 1).drop_last() =~= lv.take(i as int));
            assert(usages_view(usages@).len() == usages@.len());
            match line_events_exec(&ls[i], &mut usages) {
                Ok(()) => {},
                Err(e) => {
                    proof {
                        lemma_lines_events_err(lv, i + 1);
                        lemma_lines_events_msg(lv);
                    }
                    return Err(string_of(&e));
                },
            }
            i += 1;
        }
        assert(lv.take(i as int) =~= lv);
        Ok(Template { usages })
    }

    pub fn usages(&self) -> (r: &[CooldownUsage])
        ensures
            r@ == self.usages@,
    {
        self.usages.as_slice()
    }
}

pub proof fn lemma_marker_events_ids(line: Seq<char>, ms: Seq<(int, int)>, uid: int, at: int)
    ensures
        match marker_events(line, ms, uid, at) {
            Ok(evs) => evs.len() == ms.len() && forall|k: int|
                0 <= k < evs.len() ==> #[trigger] evs[k].uid == uid + k && evs[k].at == at
                    && evs[k].tags.len() >= 1,
            Err(_) => true,
        },
    decreases ms.len(),
{
    if ms.len() > 0 {
        lemma_marker_events_ids(line, ms.drop_last(), uid, at);
        let inner = line.subrange(ms.last().0, ms.last().1);
        lemma_split_len(weight_split(inner).0, '/');
    }
}

pub proof fn lemma_lines_events_ids(ls: Seq<Seq<char>>)
    ensures
        match lines_events(ls) {
            Ok(evs) => forall|k: int| 0 <= k < evs.len() ==> #[trigger] evs[k].uid == k + 1
                && evs[k].tags.len() >= 1,
            Err(_) => true,
        },
    decreases ls.len(),
{
    if ls.len() > 0 {
        lemma_lines_events_ids(ls.drop_last());
        match lines_events(ls.drop_last()) {
            Err(_) => {},
            Ok(evs) => {
                let line = ls.last();
                match time_spec(line) {
                    None => {},
                    Some(ts) => {
                        match time_value(ts) {
                            None => {},
                            Some(t) => {
                                lemma_marker_events_ids(line, markers(line, 0), evs.len() as int + 1, t);
                                match line_events(line, evs.len() as int + 1) {
                                    Err(_) => {},
                                    Ok(new) => {
                                        let all = evs + new;
                                        assert forall|k: int| 0 <= k < all.len() implies #[trigger] all[k].uid
                                            == k + 1 && all[k].tags.len() >= 1 by {
                                            if k >= evs.len() {
                                                assert(all[k] == new[k - evs.len()]);
                                            } else {
                                                assert(all[k] == evs[k]);
                                            }
                                        }
                                    },
                                }
                            },
                        }
                    },
                }
            },
        }
    }
}

/// Parsing depends on the text alone: two parses of the same text give the
/// same usages, with the same ids, times, tags and values, in the same order.
pub proof fn law_parse_deterministic(s1: Seq<char>, s2: Seq<char>, a: Template, b: Template)
    requires
        s1 == s2,
        parse_template(s1) == Ok::<Seq<UsageModel>, Seq<char>>(a@),
        parse_template(s2) == Ok::<Seq<UsageModel>, Seq<char>>(b@),
    ensures
        a@ == b@,
{
}

/// The usages of a parse are numbered 1, 2, 3, ... in document order, and
/// each has at least one tag.
pub proof fn law_parse_ids(s: Seq<char>)
    ensures
        match parse_template(s) {
            Ok(evs) => forall|k: int| 0 <= k < evs.len() ==> #[trigger] evs[k].uid == k + 1
                && evs[k].tags.len() >= 1,
            Err(_) => true,
        },
{
    lemma_lines_events_ids(split_on(s, '\n'));
}

pub proof fn lemma_messages_nonempty(ts: Seq<char>)
    ensures
        time_error(ts).len() > 0,
        value_error(ts).len() > 0,
        overflow_error().len() > 0,
{
    reveal_strlit("Unrecognized time format -- ");
    reveal_strlit("Unrecognized value format -- ");
    reveal_strlit("Too many usages");
}

pub proof fn lemma_marker_events_msg(line: Seq<char>, ms: Seq<(int, int)>, uid: int, at: int)
    ensures
        marker_events(line, ms, uid, at) is Err ==> marker_events(line, ms, uid, at)->Err_0.len()
            > 0,
    decreases ms.len(),
{
    if ms.len() > 0 {
        lemma_marker_events_msg(line, ms.drop_last(), uid, at);
        let inner = line.subrange(ms.last().0, ms.last().1);
        lemma_messages_nonempty(weight_split(inner).1.unwrap_or(Seq::empty()));
    }
}

/// A failed parse always explains itself: its message is never empty.
pub proof fn lemma_lines_events_msg(ls: Seq<Seq<char>>)
    ensures
        lines_events(ls) is Err ==> lines_events(ls)->Err_0.len() > 0,
    decreases ls.len(),
{
    if ls.len() > 0 {
        lemma_lines_events_msg(ls.drop_last());
        let line = ls.last();
        match time_spec(line) {
            None => {},
            Some(ts) => {
                lemma_messages_nonempty(ts);
                match time_value(ts) {
                    None => {},
                    Some(t) => {
                        let uid = match lines_events(ls.drop_last()) {
                            Ok(evs) => evs.len() as int + 1,
                            Err(_) => 0,
                        };
                        lemma_marker_events_msg(line, markers(line, 0), uid, t);
                    },
                }
            },
        }
    }
}

} // verus!