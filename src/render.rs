//! Writes an assignment back into the template text.
use vstd::prelude::*;
use std::collections::HashMap;
use crate::models::{CooldownUsage, UsageModel, usages_view};
use crate::template::{Template, lemma_markers_wf, markers, markers_exec, time_spec, time_spec_exec};
use crate::text::{
    chars_of, join_exec, join_with, lemma_split_join, lemma_split_len, pieces_view, split_exec,
    split_on, string_of,
};

verus! {

broadcast use vstd::std_specs::hash::group_hash_axioms;

/// What a usage marker becomes when no resource serves it.
pub open spec fn fallback() -> Seq<char> {
    "{spell:0} Panic!"@
}

/// The text for the `k`-th marker of the template: the name assigned to the
/// `k`-th usage, or the fallback.
pub open spec fn replacement(evs: Seq<UsageModel>, m: Map<u64, Option<String>>, k: int) -> Seq<
    char,
> {
    if 0 <= k < evs.len() && m.contains_key(evs[k].uid as u64) && m[evs[k].uid as u64] is Some {
        m[evs[k].uid as u64]->0@
    } else {
        fallback()
    }
}

/// The line from `i` on with the markers `ms` replaced, numbering them from `k`.
pub open spec fn render_spans(
    line: Seq<char>,
    i: int,
    ms: Seq<(int, int)>,
    evs: Seq<UsageModel>,
    m: Map<u64, Option<String>>,
    k: int,
) -> Seq<char>
    decreases ms.len(),
{
    if ms.len() == 0 {
        line.subrange(i, line.len() as int)
    } else {
        line.subrange(i, ms[0].0 - 2) + replacement(evs, m, k) + render_spans(
            line,
            ms[0].1 + 2,
            ms.drop_first(),
            evs,
            m,
            k + 1,
        )
    }
}

/// Markers are replaced only on lines with a timestamp.
pub open spec fn line_marker_count(line: Seq<char>) -> int {
    if time_spec(line) is Some {
        markers(line, 0).len() as int
    } else {
        0
    }
}

pub open spec fn render_line(
    line: Seq<char>,
    evs: Seq<UsageModel>,
    m: Map<u64, Option<String>>,
    k: int,
) -> Seq<char> {
    if time_spec(line) is Some {
        render_spans(line, 0, markers(line, 0), evs, m, k)
    } else {
        line
    }
}

/// How many markers the lines `ls` replace.
pub open spec fn marker_total(ls: Seq<Seq<char>>) -> int
    decreases ls.len(),
{
    if ls.len() == 0 {
        0
    } else {
        marker_total(ls.drop_last()) + line_marker_count(ls.last())
    }
}

pub open spec fn render_lines(
    ls: Seq<Seq<char>>,
    evs: Seq<UsageModel>,
    m: Map<u64, Option<String>>,
) -> Seq<Seq<char>>
    decreases ls.len(),
{
    if ls.len() == 0 {
        Seq::empty()
    } else {
        render_lines(ls.drop_last(), evs, m).push(
            render_line(ls.last(), evs, m, marker_total(ls.drop_last())),
        )
    }
}

pub open spec fn render_template(
    s: Seq<char>,
    evs: Seq<UsageModel>,
    m: Map<u64, Option<String>>,
) -> Seq<char> {
    join_with(render_lines(split_on(s, '\n'), evs, m), '\n')
}

pub proof fn lemma_render_spans_cap(
    line: Seq<char>,
    i: int,
    ms: Seq<(int, int)>,
    evs: Seq<UsageModel>,
    m: Map<u64, Option<String>>,
    k: int,
)
    requires
        k >= evs.len(),
    ensures
        render_spans(line, i, ms, evs, m, k) == render_spans(line, i, ms, evs, m, evs.len() as int),
    decreases ms.len(),
{
    if ms.len() > 0 {
        lemma_render_spans_cap(line, ms[0].1 + 2, ms.drop_first(), evs, m, k + 1);
        lemma_render_spans_cap(line, ms[0].1 + 2, ms.drop_first(), evs, m, evs.len() as int + 1);
    }
}

fn replacement_exec(evs: &[CooldownUsage], m: &HashMap<u64, Option<String>>, k: usize) -> (r: Vec<
    char,
>)
    ensures
        r@ == replacement(usages_view(evs@), m@, k as int),
{
    if k < evs.len() {
        let uid = evs[k].uid;
        match m.get(&uid) {
            Some(Some(name)) => chars_of(name.as_str()),
            _ => chars_of("{spell:0} Panic!"),
        }
    } else {
        chars_of("{spell:0} Panic!")
    }
}

/// Renders one line whose markers are numbered from `k`; also returns the
/// number of the next marker, capped at the number of usages.
fn render_line_exec(
    line: &Vec<char>,
    evs: &[CooldownUsage],
    m: &HashMap<u64, Option<String>>,
    k: usize,
) -> (r: (Vec<char>, usize))
    requires
        k <= evs.len(),
    ensures
        r.0@ == render_line(line@, usages_view(evs@), m@, k as int),
        r.1 as int == if k + line_marker_count(line@) <= evs.len() {
            k + line_marker_count(line@)
        } else {
            evs.len() as int
        },
{
    let ghost ev = usages_view(evs@);
    if time_spec_exec(line).is_none() {
        return (line.clone(), k);
    }
    let ms = markers_exec(line);
    proof {
        lemma_markers_wf(line@, 0);
    }
    let ghost msv = markers(line@, 0);
    let mut out: Vec<char> = Vec::new();
    let mut pos: usize = 0;
    let mut cur = k;
    let mut j: usize = 0;
    assert(msv.skip(0) =~= msv);
    while j < ms.len()
        invariant
            j <= ms.len(),
            ev == usages_view(evs@),
            msv == crate::template::spans_view(ms@),
            msv == markers(line@, 0),
            forall|t: int|
                0 <= t < msv.len() ==> {
                    let (a, b) = #[trigger] msv[t];
                    &&& 0 + 2 <= a <= b
                    &&& b + 2 <= line@.len()
                },
            forall|t: int| 0 <= t < msv.len() - 1 ==> msv[t].1 + 2 + 2 <= msv[t + 1].0,
            j < ms.len() ==> pos + 2 <= msv[j as int].0,
            pos <= line.len(),
            k <= evs.len(),
            cur as int == if k + j <= evs.len() {
                k + j
            } else {
                evs.len() as int
            },
            out@ + render_spans(line@, pos as int, msv.skip(j as int), ev, m@, k + j) == render_spans(
                line@,
                0,
                msv,
                ev,
                m@,
                k as int,
            ),
        decreases ms.len() - j,
    {
        let (a, b) = ms[j];
        assert(msv[j as int] == (a as int, b as int));
        let ghost before = out@;
        let ghost rest = msv.skip(j as int);
        assert(rest[0] == msv[j as int]);
        assert(rest.drop_first() =~= msv.skip(j + 1));
        let mut t = pos;
        while t < a - 2
            invariant
                pos <= t <= a - 2,
                a - 2 <= line.len(),
                out@ == before + line@.subrange(pos as int, t as int),
            decreases a - 2 - t,
        {
            out.push(line[t]);
            assert(out@ =~= before + line@.subrange(pos as int, t + 1));
            t += 1;
        }
        let rep = replacement_exec(evs, m, cur);
        assert(rep@ == replacement(ev, m@, k + j));
        let ghost mid = out@;
        let mut u: usize = 0;
        while u < rep.len()
            invariant
                u <= rep.len(),
                out@ == mid + rep@.take(u as int),
            decreases rep.len() - u,
        {
            out.push(rep[u]);
            assert(out@ =~= mid + rep@.take(u + 1));
            u += 1;
        }
        assert(rep@.take(u as int) =~= rep@);
        assert(out@ + render_spans(line@, b + 2, msv.skip(j + 1), ev, m@, k + j + 1) =~= before
            + render_spans(line@, pos as int, rest, ev, m@, k + j));
        pos = b + 2;
        if cur < evs.len() {
            cur += 1;
        }
        j += 1;
    }
    let ghost before = out@;
    let mut t = pos;
    while t < line.len()
        invariant
            pos <= t <= line.len(),
            out@ == before + line@.subrange(pos as int, t as int),
        decreases line.len() - t,
    {
        out.push(line[t]);
        assert(out@ =~= before + line@.subrange(pos as int, t + 1));
        t += 1;
    }
    assert(msv.skip(j as int) =~= Seq::<(int, int)>::empty());
    assert(out@ =~= render_spans(line@, 0, msv, ev, m@, k as int));
    (out, cur)
}

impl Template {
    /// Replaces each usage marker of the template's timestamped lines, in order,
    /// by the name assigned to the matching usage, or by the fallback text.
    pub fn subst_assignments(
        &self,
        template: &str,
        assignments: HashMap<u64, Option<String>>,
    ) -> (r: String)
        ensures
            r@ == render_template(template@, self@, assignments@),
    {
        let ghost ev = usages_view(self.usages@);
        let s = chars_of(template);
        assert(s@.subrange(0, s@.len() as int) =~= s@);
        let ls = split_exec(&s, 0, s.len(), '\n');
        let ghost lv = pieces_view(ls@);
        let mut out: Vec<Vec<char>> = Vec::new();
        let mut cur: usize = 0;
        let mut i: usize = 0;
        assert(lv.take(0) =~= Seq::<Seq<char>>::empty());
        assert(pieces_view(out@) =~= Seq::<Seq<char>>::empty());
        while i < ls.len()
            invariant
                i <= ls.len(),
                lv == pieces_view(ls@),
                lv == split_on(template@, '\n'),
                ev == usages_view(self.usages@),
                pieces_view(out@) == render_lines(lv.take(i as int), ev, assignments@),
                marker_total(lv.take(i as int)) >= 0,
                cur as int == if marker_total(lv.take(i as int)) <= self.usages.len() {
                    marker_total(lv.take(i as int))
                } else {
                    self.usages.len() as int
                },
            decreases ls.len() - i,
        {
            assert(lv.take(i + 1).drop_last() =~= lv.take(i as int));
            assert(lv.take(i + 1).last() == lv[i as int]);
            let (line, next) = render_line_exec(&ls[i], self.usages.as_slice(), &assignments, cur);
            proof {
                let total = marker_total(lv.take(i as int));
                if total > self.usages.len() {
                    if time_spec(lv[i as int]) is Some {
                        lemma_render_spans_cap(
                            lv[i as int],
                            0,
                            markers(lv[i as int], 0),
                            ev,
                            assignments@,
                            total,
                        );
                    }
                }
            }
            let ghost before = out@;
            out.push(line);
            assert(pieces_view(out@) =~= pieces_view(before).push(line@));
            cur = next;
            i += 1;
        }
        assert(lv.take(i as int) =~= lv);
        let joined = join_exec(&out, '\n');
        string_of(&joined)
    }
}

pub open spec fn no_newline(s: Seq<char>) -> bool {
    forall|j: int| 0 <= j < s.len() ==> s[j] != '\n'
}

pub proof fn lemma_split_pieces(s: Seq<char>, sep: char)
    ensures
        forall|i: int, j: int|
            0 <= i < split_on(s, sep).len() && 0 <= j < split_on(s, sep)[i].len() ==> split_on(
                s,
                sep,
            )[i][j] != sep,
    decreases s.len(),
{
    if s.len() > 0 {
        lemma_split_pieces(s.drop_last(), sep);
        lemma_split_len(s.drop_last(), sep);
        let ps = split_on(s.drop_last(), sep);
        let qs = split_on(s, sep);
        assert forall|i: int, j: int| 0 <= i < qs.len() && 0 <= j < qs[i].len() implies qs[i][j]
            != sep by {
            if s.last() != sep && i == ps.len() - 1 {
                assert(qs[i] == ps.last().push(s.last()));
                if j < ps.last().len() {
                    assert(qs[i][j] == ps[i][j]);
                }
            } else if i < ps.len() {
                assert(qs[i] == ps[i]);
            }
        }
    }
}

pub proof fn lemma_render_spans_no_newline(
    line: Seq<char>,
    i: int,
    evs: Seq<UsageModel>,
    m: Map<u64, Option<String>>,
    k: int,
)
    requires
        0 <= i <= line.len(),
        no_newline(line),
        forall|t: int| no_newline(#[trigger] replacement(evs, m, t)),
    ensures
        no_newline(render_spans(line, i, markers(line, i), evs, m, k)),
    decreases line.len() - i,
{
    lemma_markers_wf(line, i);
    let ms = markers(line, i);
    if ms.len() > 0 {
        let (a, b) = ms[0];
        lemma_render_spans_no_newline(line, b + 2, evs, m, k + 1);
        assert(ms.drop_first() =~= markers(line, b + 2));
        let r = render_spans(line, i, ms, evs, m, k);
        let p1 = line.subrange(i, a - 2);
        let p2 = replacement(evs, m, k);
        let p3 = render_spans(line, b + 2, ms.drop_first(), evs, m, k + 1);
        assert(r == p1 + p2 + p3);
        assert forall|j: int| 0 <= j < r.len() implies r[j] != '\n' by {
            if j < p1.len() {
                assert(r[j] == line[i + j]);
            } else if j < p1.len() + p2.len() {
                assert(r[j] == p2[j - p1.len()]);
            } else {
                assert(r[j] == p3[j - p1.len() - p2.len()]);
            }
        }
    }
}

pub proof fn lemma_render_lines_index(ls: Seq<Seq<char>>, evs: Seq<UsageModel>, m: Map<u64, Option<String>>)
    ensures
        render_lines(ls, evs, m).len() == ls.len(),
        forall|i: int|
            0 <= i < ls.len() ==> #[trigger] render_lines(ls, evs, m)[i] == render_line(
                ls[i],
                evs,
                m,
                marker_total(ls.take(i)),
            ),
    decreases ls.len(),
{
    if ls.len() > 0 {
        let init = ls.drop_last();
        lemma_render_lines_index(init, evs, m);
        assert forall|i: int| 0 <= i < ls.len() implies #[trigger] render_lines(ls, evs, m)[i]
            == render_line(ls[i], evs, m, marker_total(ls.take(i))) by {
            if i < init.len() {
                assert(init.take(i) =~= ls.take(i));
            } else {
                assert(init =~= ls.take(i));
            }
        }
    }
}

/// Where no usage has a resource, every marker becomes the fallback text,
/// the output has as many lines as the input, and each line without a
/// timestamp comes out unchanged.
pub proof fn law_unassigned_render(s: Seq<char>, evs: Seq<UsageModel>, m: Map<u64, Option<String>>)
    requires
        forall|u: u64| m.contains_key(u) ==> m[u] is None,
    ensures
        forall|k: int| #[trigger] replacement(evs, m, k) == fallback(),
        split_on(render_template(s, evs, m), '\n').len() == split_on(s, '\n').len(),
        forall|i: int|
            0 <= i < split_on(s, '\n').len() && time_spec(#[trigger] split_on(s, '\n')[i]) is None
                ==> split_on(render_template(s, evs, m), '\n')[i] == split_on(s, '\n')[i],
{
    let ls = split_on(s, '\n');
    let rl = render_lines(ls, evs, m);
    reveal_strlit("{spell:0} Panic!");
    assert(no_newline(fallback()));
    lemma_split_len(s, '\n');
    lemma_split_pieces(s, '\n');
    lemma_render_lines_index(ls, evs, m);
    assert forall|i: int, j: int| 0 <= i < rl.len() && 0 <= j < rl[i].len() implies rl[i][j]
        != '\n' by {
        assert(no_newline(ls[i]));
        if time_spec(ls[i]) is Some {
            lemma_render_spans_no_newline(ls[i], 0, evs, m, marker_total(ls.take(i)));
        }
    }
    lemma_split_join(rl, '\n');
}

} // verus!