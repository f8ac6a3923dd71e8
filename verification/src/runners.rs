//! Around the solver runs: the file names a run reads and writes, the
//! lines the engine appends to its logs, and the preprocessing stage that
//! ranks candidate variables by a single-split run pair.

use crate::config::Comparator;
use crate::cube::{cube_bytes, Cube};
use crate::num::{ratio_bytes, ratio_lt, ratio_wf, Ratio};
use crate::strings::ascii_view;
use vstd::multiset::Multiset;
use vstd::prelude::*;

verus! {

/// The path of the extended formula a run reads: `<tmp_dir>/<cube>.cnf`.
pub fn cnf_file_path(tmp_dir: &String, cube: &Cube) -> (r: String)
    ensures
        r@ == tmp_dir@ + "/"@ + ascii_view(cube_bytes(cube.0@)) + ".cnf"@,
{
    let mut s = tmp_dir.clone();
    s.append("/");
    let c = cube.to_text();
    s.append(c.as_str());
    s.append(".cnf");
    s
}

/// The path of the log a run writes: `<output_dir>/logs/<cube>.log`.
pub fn log_file_path(output_dir: &String, cube: &Cube) -> (r: String)
    ensures
        r@ == output_dir@ + "/logs/"@ + ascii_view(cube_bytes(cube.0@)) + ".log"@,
{
    let mut s = output_dir.clone();
    s.append("/logs/");
    let c = cube.to_text();
    s.append(c.as_str());
    s.append(".log");
    s
}

// ---------------------------------------------------------------------------
// Log lines
// ---------------------------------------------------------------------------

/// One completed run, as the engine records it in `all.log`.
pub enum RunOutcome {
    Metrics(Vec<(String, Ratio)>),
    TimedOut,
    Failed(String),
}

/// One metrics entry as it is printed: `"key": value`.
pub open spec fn entry_text(k: Seq<char>, v: Ratio) -> Seq<char> {
    "\""@ + k + "\": "@ + ascii_view(ratio_bytes(v))
}

/// The printed body of a metrics map, entries separated by `, `.
pub open spec fn entries_text(es: Seq<(Seq<char>, Ratio)>) -> Seq<char>
    decreases es.len(),
{
    if es.len() == 0 {
        Seq::<char>::empty()
    } else if es.len() == 1 {
        entry_text(es[0].0, es[0].1)
    } else {
        entry_text(es[0].0, es[0].1) + ", "@ + entries_text(es.drop_first())
    }
}

proof fn lemma_entries_text_push(es: Seq<(Seq<char>, Ratio)>, e: (Seq<char>, Ratio))
    requires
        es.len() >= 1,
    ensures
        entries_text(es.push(e)) == entries_text(es) + ", "@ + entry_text(e.0, e.1),
    decreases es.len(),
{
    if es.len() == 1 {
        assert(es.push(e)[0] == es[0]);
        assert(es.push(e).drop_first() =~= seq![e]);
        assert(entries_text(seq![e]) == entry_text(e.0, e.1));
    } else {
        assert(es.push(e)[0] == es[0]);
        assert(es.push(e).drop_first() =~= es.drop_first().push(e));
        lemma_entries_text_push(es.drop_first(), e);
        assert(entries_text(es.push(e)) == entry_text(es[0].0, es[0].1) + ", "@ + (entries_text(
            es.drop_first(),
        ) + ", "@ + entry_text(e.0, e.1)));
        assert(entry_text(es[0].0, es[0].1) + ", "@ + (entries_text(es.drop_first()) + ", "@
            + entry_text(e.0, e.1)) =~= (entry_text(es[0].0, es[0].1) + ", "@ + entries_text(
            es.drop_first(),
        )) + ", "@ + entry_text(e.0, e.1));
    }
}

/// The line the engine appends to `all.log` for one run: the cube, then
/// its full metrics map, or `Timeout`, or the error text.
pub fn all_log_line(cube: &Cube, outcome: &RunOutcome) -> (r: String)
    requires
        outcome matches RunOutcome::Metrics(es) ==> forall|i: int|
            0 <= i < es@.len() ==> ratio_wf((#[trigger] es@[i]).1),
    ensures
        match outcome {
            RunOutcome::Metrics(es) => r@ == ascii_view(cube_bytes(cube.0@)) + ": {"@
                + entries_text(crate::solver_log::entries_view(es@)) + "}\n"@,
            RunOutcome::TimedOut => r@ == ascii_view(cube_bytes(cube.0@)) + ": Timeout\n"@,
            RunOutcome::Failed(msg) => r@ == ascii_view(cube_bytes(cube.0@)) + ": "@ + msg@
                + "\n"@,
        },
{
    let mut s = cube.to_text();
    match outcome {
        RunOutcome::Metrics(es) => {
            s.append(": {");
            let ghost view = crate::solver_log::entries_view(es@);
            let n = es.len();
            for i in 0..n
                invariant
                    n == es@.len(),
                    view == crate::solver_log::entries_view(es@),
                    forall|x: int| 0 <= x < es@.len() ==> ratio_wf((#[trigger] es@[x]).1),
                    s@ == ascii_view(cube_bytes(cube.0@)) + ": {"@ + entries_text(
                        view.take(i as int),
                    ),
            {
                if i > 0 {
                    s.append(", ");
                }
                s.append("\"");
                s.append(es[i].0.as_str());
                s.append("\": ");
                let vb = es[i].1.to_bytes();
                proof {
                    crate::num::lemma_ratio_bytes_ascii(es@[i as int].1);
                }
                let vt = crate::strings::ascii_string(vb);
                s.append(vt.as_str());
                proof {
                    let prev = view.take(i as int);
                    assert(view.take(i + 1) == prev.push(view[i as int]));
                    assert(view[i as int] == (es@[i as int].0@, es@[i as int].1));
                    if i == 0 {
                        assert(prev.len() == 0);
                        assert(entries_text(view.take(1)) == entry_text(
                            view[0].0,
                            view[0].1,
                        ));
                        assert(s@ =~= ascii_view(cube_bytes(cube.0@)) + ": {"@ + entries_text(
                            view.take(1),
                        ));
                    } else {
                        lemma_entries_text_push(prev, view[i as int]);
                        assert(s@ =~= ascii_view(cube_bytes(cube.0@)) + ": {"@ + entries_text(
                            view.take(i + 1),
                        ));
                    }
                }
            }
            proof {
                assert(view.take(n as int) == view);
            }
            s.append("}\n");
            proof {
                assert(s@ =~= ascii_view(cube_bytes(cube.0@)) + ": {"@ + entries_text(view)
                    + "}\n"@);
            }
        },
        RunOutcome::TimedOut => {
            s.append(": Timeout\n");
            proof {
                assert(s@ =~= ascii_view(cube_bytes(cube.0@)) + ": Timeout\n"@);
            }
        },
        RunOutcome::Failed(msg) => {
            s.append(": ");
            s.append(msg.as_str());
            s.append("\n");
            proof {
                assert(s@ =~= ascii_view(cube_bytes(cube.0@)) + ": "@ + msg@ + "\n"@);
            }
        },
    }
    s
}

/// The line the engine appends to `best.log` for one winning member:
/// `<cube>: <metric>`.
pub fn best_log_line(cube: &Cube, metric: &Ratio) -> (r: String)
    requires
        ratio_wf(*metric),
    ensures
        r@ == ascii_view(cube_bytes(cube.0@)) + ": "@ + ascii_view(ratio_bytes(*metric))
            + "\n"@,
{
    let mut s = cube.to_text();
    s.append(": ");
    let vb = metric.to_bytes();
    proof {
        crate::num::lemma_ratio_bytes_ascii(*metric);
    }
    let vt = crate::strings::ascii_string(vb);
    s.append(vt.as_str());
    s.append("\n");
    proof {
        assert(s@ =~= ascii_view(cube_bytes(cube.0@)) + ": "@ + ascii_view(ratio_bytes(*metric))
            + "\n"@);
    }
    s
}

// ---------------------------------------------------------------------------
// Preprocessing: rank variables by a single-split run pair
// ---------------------------------------------------------------------------

/// The two runs of one candidate variable: on `+v` and on `-v`. A missing
/// metric stands for a timeout or an error of that run.
pub struct PairOutcome {
    pub var: u32,
    pub pos: Option<Ratio>,
    pub neg: Option<Ratio>,
}

pub open spec fn pair_wf(p: PairOutcome) -> bool {
    &&& p.pos matches Some(q) ==> ratio_wf(q)
    &&& p.neg matches Some(q) ==> ratio_wf(q)
}

/// The inner aggregate of a pair: its minimum when maximizing minima,
/// its maximum when minimizing maxima.
pub open spec fn pair_score(cmp: Comparator, pos: Ratio, neg: Ratio) -> Ratio {
    match cmp {
        Comparator::MaxOfMin => if ratio_lt(neg, pos) {
            neg
        } else {
            pos
        },
        Comparator::MinOfMax => if ratio_lt(pos, neg) {
            neg
        } else {
            pos
        },
    }
}

/// The scored variables: those whose both runs returned a metric, each
/// with its pair score, in arrival order.
pub open spec fn scored_of(rs: Seq<PairOutcome>, cmp: Comparator) -> Seq<(u32, Ratio)>
    decreases rs.len(),
{
    if rs.len() == 0 {
        Seq::<(u32, Ratio)>::empty()
    } else {
        let rest = scored_of(rs.drop_first(), cmp);
        match (rs[0].pos, rs[0].neg) {
            (Some(p), Some(n)) => seq![(rs[0].var, pair_score(cmp, p, n))] + rest,
            _ => rest,
        }
    }
}

/// The outer order: when maximizing minima the ranking is descending, so
/// a earlier entry never scores below a later one; when minimizing
/// maxima it is ascending.
pub open spec fn ranked(s: Seq<(u32, Ratio)>, cmp: Comparator) -> bool {
    forall|i: int, j: int|
        0 <= i < j < s.len() ==> match cmp {
            Comparator::MaxOfMin => !ratio_lt((#[trigger] s[i]).1, (#[trigger] s[j]).1),
            Comparator::MinOfMax => !ratio_lt(s[j].1, s[i].1),
        }
}

proof fn lemma_scored_wf(rs: Seq<PairOutcome>, cmp: Comparator)
    requires
        forall|i: int| 0 <= i < rs.len() ==> pair_wf(#[trigger] rs[i]),
    ensures
        forall|i: int|
            0 <= i < scored_of(rs, cmp).len() ==> ratio_wf((#[trigger] scored_of(rs, cmp)[i]).1),
    decreases rs.len(),
{
    if rs.len() > 0 {
        assert(forall|i: int|
            0 <= i < rs.drop_first().len() ==> pair_wf(#[trigger] rs.drop_first()[i])) by {
            assert(forall|i: int|
                0 <= i < rs.len() - 1 ==> rs.drop_first()[i] == #[trigger] rs[i + 1]);
        }
        lemma_scored_wf(rs.drop_first(), cmp);
        let whole = scored_of(rs, cmp);
        let rest = scored_of(rs.drop_first(), cmp);
        assert forall|i: int| 0 <= i < whole.len() implies ratio_wf((#[trigger] whole[i]).1) by {
            match (rs[0].pos, rs[0].neg) {
                (Some(p), Some(n)) => {
                    if i == 0 {
                        assert(pair_wf(rs[0]));
                    } else {
                        assert(whole[i] == rest[i - 1]);
                    }
                },
                _ => {
                    assert(whole[i] == rest[i]);
                },
            }
        }
    }
}

/// Rank every candidate variable by its single-split pair and keep the
/// best `count`: the result is the variables of a reordering of the
/// scored list that is sorted in the comparator's direction, truncated
/// to `count` entries.
pub fn preprocess(comparator: Comparator, results: &Vec<PairOutcome>, count: usize) -> (r: Vec<
    u32,
>)
    requires
        forall|i: int| 0 <= i < results@.len() ==> pair_wf(#[trigger] results@[i]),
    ensures
        exists|sorted: Seq<(u32, Ratio)>|
            {
                &&& (#[trigger] sorted.to_multiset()) == scored_of(results@, comparator)
                    .to_multiset()
                &&& ranked(sorted, comparator)
                &&& r@.len() == (if count <= sorted.len() {
                    count as int
                } else {
                    sorted.len() as int
                })
                &&& forall|i: int| 0 <= i < r@.len() ==> (#[trigger] r@[i]) == sorted[i].0
            },
{
    broadcast use vstd::prelude::Seq::to_multiset_ensures;

    let ghost all_scored = scored_of(results@, comparator);
    proof {
        lemma_scored_wf(results@, comparator);
    }
    // gather the scored pairs in arrival order
    let mut rest: Vec<(u32, Ratio)> = Vec::new();
    let n = results.len();
    proof {
        assert(results@.skip(0) == results@);
        assert(rest@ + scored_of(results@.skip(0), comparator) =~= all_scored);
    }
    for i in 0..n
        invariant
            n == results@.len(),
            all_scored == scored_of(results@, comparator),
            forall|x: int| 0 <= x < results@.len() ==> pair_wf(#[trigger] results@[x]),
            rest@ + scored_of(results@.skip(i as int), comparator) == all_scored,
            forall|x: int| 0 <= x < rest@.len() ==> ratio_wf((#[trigger] rest@[x]).1),
    {
        proof {
            let tail = results@.skip(i as int);
            assert(tail[0] == results@[i as int]);
            assert(tail.drop_first() == results@.skip(i + 1));
        }
        match (&results[i].pos, &results[i].neg) {
            (Some(p), Some(q)) => {
                let score = match comparator {
                    Comparator::MaxOfMin => if q.lt(p) {
                        *q
                    } else {
                        *p
                    },
                    Comparator::MinOfMax => if p.lt(q) {
                        *q
                    } else {
                        *p
                    },
                };
                let ghost prev = rest@;
                rest.push((results[i].var, score));
                proof {
                    assert(pair_wf(results@[i as int]));
                    assert(score == pair_score(comparator, *p, *q));
                    assert(scored_of(results@.skip(i as int), comparator) == seq![
                        (results@[i as int].var, score),
                    ] + scored_of(results@.skip(i + 1), comparator));
                    assert(prev + (seq![(results@[i as int].var, score)] + scored_of(
                        results@.skip(i + 1),
                        comparator,
                    )) =~= rest@ + scored_of(results@.skip(i + 1), comparator));
                }
            },
            _ => {
                proof {
                    assert(scored_of(results@.skip(i as int), comparator) == scored_of(
                        results@.skip(i + 1),
                        comparator,
                    ));
                }
            },
        }
    }
    proof {
        assert(results@.skip(n as int) =~= Seq::<PairOutcome>::empty());
        assert(results@.skip(n as int).len() == 0);
        assert(scored_of(results@.skip(n as int), comparator) == Seq::<(u32, Ratio)>::empty());
        assert(rest@ + Seq::<(u32, Ratio)>::empty() =~= rest@);
        assert(rest@ == all_scored);
    }
    // selection sort in the comparator's direction
    let mut sorted: Vec<(u32, Ratio)> = Vec::new();
    proof {
        sorted@.to_multiset_ensures();
        rest@.to_multiset_ensures();
        assert(sorted@.to_multiset().len() == 0);
        assert(sorted@.to_multiset() =~= Multiset::<(u32, Ratio)>::empty());
        assert(sorted@.to_multiset().add(rest@.to_multiset()) =~= rest@.to_multiset());
    }
    while rest.len() > 0
        invariant
            sorted@.to_multiset().add(rest@.to_multiset()) == all_scored.to_multiset(),
            ranked(sorted@, comparator),
            forall|x: int| 0 <= x < rest@.len() ==> ratio_wf((#[trigger] rest@[x]).1),
            forall|x: int| 0 <= x < sorted@.len() ==> ratio_wf((#[trigger] sorted@[x]).1),
            forall|x: int, y: int|
                0 <= x < sorted@.len() && 0 <= y < rest@.len() ==> match comparator {
                    Comparator::MaxOfMin => !ratio_lt(
                        (#[trigger] sorted@[x]).1,
                        (#[trigger] rest@[y]).1,
                    ),
                    Comparator::MinOfMax => !ratio_lt(rest@[y].1, sorted@[x].1),
                },
        decreases rest@.len(),
    {
        let mut besti: usize = 0;
        let m = rest.len();
        for j in 1..m
            invariant
                m == rest@.len(),
                m >= 1,
                besti < j <= m,
                forall|x: int| 0 <= x < rest@.len() ==> ratio_wf((#[trigger] rest@[x]).1),
                forall|y: int|
                    0 <= y < j ==> match comparator {
                        Comparator::MaxOfMin => !ratio_lt(
                            rest@[besti as int].1,
                            (#[trigger] rest@[y]).1,
                        ),
                        Comparator::MinOfMax => !ratio_lt(rest@[y].1, rest@[besti as int].1),
                    },
        {
            let better = match comparator {
                Comparator::MaxOfMin => rest[besti].1.lt(&rest[j].1),
                Comparator::MinOfMax => rest[j].1.lt(&rest[besti].1),
            };
            if better {
                proof {
                    assert forall|y: int| 0 <= y < j + 1 implies match comparator {
                        Comparator::MaxOfMin => !ratio_lt(rest@[j as int].1, (#[trigger] rest@[y]).1),
                        Comparator::MinOfMax => !ratio_lt(rest@[y].1, rest@[j as int].1),
                    } by {
                        match comparator {
                            Comparator::MaxOfMin => {
                                if y < j && ratio_lt(rest@[j as int].1, rest@[y].1) {
                                    crate::num::lemma_ratio_le_trans(
                                        rest@[y].1,
                                        rest@[besti as int].1,
                                        rest@[j as int].1,
                                    );
                                }
                            },
                            Comparator::MinOfMax => {
                                if y < j && ratio_lt(rest@[y].1, rest@[j as int].1) {
                                    crate::num::lemma_ratio_le_trans(
                                        rest@[j as int].1,
                                        rest@[besti as int].1,
                                        rest@[y].1,
                                    );
                                }
                            },
                        }
                    }
                }
                besti = j;
            }
        }
        let ghost sorted_prev = sorted@;
        let ghost rest_prev = rest@;
        let best = rest.remove(besti);
        sorted.push(best);
        proof {
            rest_prev.to_multiset_ensures();
            sorted_prev.to_multiset_ensures();
            assert(rest_prev.remove(besti as int).to_multiset() =~= rest_prev.to_multiset()
                .remove(best));
            assert(sorted_prev.push(best).to_multiset() =~= sorted_prev.to_multiset().insert(
                best,
            ));
            assert(rest_prev.to_multiset().count(best) >= 1) by {
                assert(rest_prev[besti as int] == best);
                assert(rest_prev.contains(best));
            }
            assert(sorted@.to_multiset().add(rest@.to_multiset()) =~= all_scored.to_multiset());
            assert(ranked(sorted@, comparator)) by {
                assert(forall|x: int|
                    0 <= x < sorted_prev.len() ==> sorted@[x] == #[trigger] sorted_prev[x]);
                assert(sorted@[sorted@.len() - 1] == best);
            }
            assert forall|x: int, y: int|
                0 <= x < sorted@.len() && 0 <= y < rest@.len() implies match comparator {
                Comparator::MaxOfMin => !ratio_lt((#[trigger] sorted@[x]).1, (#[trigger] rest@[y]).1),
                Comparator::MinOfMax => !ratio_lt(rest@[y].1, sorted@[x].1),
            } by {
                let orig = if y < besti {
                    y
                } else {
                    y + 1
                };
                assert(rest@[y] == rest_prev[orig]);
                if x < sorted_prev.len() {
                    assert(sorted@[x] == sorted_prev[x]);
                } else {
                    assert(sorted@[x] == best);
                }
            }
        }
    }
    proof {
        rest@.to_multiset_ensures();
        assert(rest@.to_multiset().len() == 0);
        assert(rest@.to_multiset() =~= Multiset::<(u32, Ratio)>::empty());
        assert(sorted@.to_multiset().add(Multiset::<(u32, Ratio)>::empty()) =~= sorted@
            .to_multiset());
        assert(sorted@.to_multiset() == all_scored.to_multiset());
    }
    // keep the best `count`
    let keep = if count <= sorted.len() {
        count
    } else {
        sorted.len()
    };
    let mut out: Vec<u32> = Vec::new();
    for i in 0..keep
        invariant
            keep <= sorted@.len(),
            out@.len() == i,
            forall|x: int| 0 <= x < i ==> (#[trigger] out@[x]) == sorted@[x].0,
    {
        out.push(sorted[i].0);
    }
    proof {
        let witness = sorted@;
        assert(witness.to_multiset() == all_scored.to_multiset());
        assert(ranked(witness, comparator));
    }
    out
}

} // verus!
