//! Reconstruction: read the `best.log` trace back, keep the cubes that
//! subsume no other cube — the leaves of the search tree — and emit them
//! as iCNF `a … 0` lines.

use crate::cnf::clause_line;
use crate::cube::{parse_cube_spec, Cube};
use crate::num::{parse_ratio_spec, ratio_wf, Ratio};
use crate::strings::{all_ascii, ascii_string, ascii_view, char_bytes, str_to_bytes};
use crate::text::{
    split_bytes, split_lines, split_lines_spec, split_on, trim_bytes, trim_spec, seq2, NL, SP,
};
use vstd::prelude::*;

verus! {

/// A structured error for a `best.log` that cannot be read back.
#[derive(Debug, Clone)]
pub struct ReconstructErr(pub String);

/// `a` then the literals, space-separated, then ` 0` and a newline.
pub open spec fn icnf_line(lits: Seq<i32>) -> Seq<u8> {
    seq![97u8, SP] + clause_line(lits) + seq![NL]
}

impl Cube {
    /// This cube as an iCNF line.
    pub fn to_icnf_string(&self) -> (r: String)
        ensures
            r@ == ascii_view(icnf_line(self.0@)),
    {
        let mut out: Vec<u8> = Vec::new();
        out.push(97u8);
        out.push(SP);
        let line = crate::cnf::clause_line_bytes(&self.0);
        crate::text::append_bytes(&mut out, &line);
        out.push(NL);
        proof {
            assert(out@ =~= icnf_line(self.0@));
            crate::cnf::lemma_clause_line_ascii(self.0@);
            assert forall|i: int| 0 <= i < out@.len() implies (#[trigger] out@[i]) < 128 by {
                if 2 <= i < out@.len() - 1 {
                    assert(out@[i] == clause_line(self.0@)[i - 2]);
                }
            }
        }
        ascii_string(out)
    }
}

// ---------------------------------------------------------------------------
// Reading best.log back
// ---------------------------------------------------------------------------

/// One line of `best.log`: the serialized cube, a `:`, and its metric.
pub open spec fn parse_best_line(line: Seq<u8>) -> Option<(Seq<i32>, Ratio)> {
    let toks = split_on(line, 58u8);
    if toks.len() < 2 {
        None
    } else {
        match (parse_cube_spec(toks[0]), parse_ratio_spec(trim_spec(toks[1]))) {
            (Some(c), Some(q)) => Some((c, q)),
            _ => None,
        }
    }
}

/// The entries of `best.log`, read until its first blank line.
pub open spec fn parse_best_entries(lines: Seq<Seq<u8>>) -> Option<Seq<(Seq<i32>, Ratio)>>
    decreases lines.len(),
{
    if lines.len() == 0 {
        Some(Seq::<(Seq<i32>, Ratio)>::empty())
    } else if trim_spec(lines[0]).len() == 0 {
        Some(Seq::<(Seq<i32>, Ratio)>::empty())
    } else {
        match (parse_best_line(lines[0]), parse_best_entries(lines.drop_first())) {
            (Some(e), Some(rest)) => Some(seq![e] + rest),
            _ => None,
        }
    }
}

/// Whether every literal of `a` also appears in `b`.
pub open spec fn subsumes_spec(a: Seq<i32>, b: Seq<i32>) -> bool {
    forall|i: int| 0 <= i < a.len() ==> b.contains(#[trigger] a[i])
}

/// An entry is a leaf when its cube subsumes no other cube of the log
/// (cubes equal to it do not count as other).
pub open spec fn leaf_in(all: Seq<(Seq<i32>, Ratio)>, c: Seq<i32>) -> bool {
    forall|j: int| 0 <= j < all.len() ==> (#[trigger] all[j]).0 == c || !subsumes_spec(c, all[j].0)
}

/// The leaf entries, in log order.
pub open spec fn leaves_of(rest: Seq<(Seq<i32>, Ratio)>, all: Seq<(Seq<i32>, Ratio)>) -> Seq<
    (Seq<i32>, Ratio),
>
    decreases rest.len(),
{
    if rest.len() == 0 {
        Seq::<(Seq<i32>, Ratio)>::empty()
    } else {
        let tail = leaves_of(rest.drop_first(), all);
        if leaf_in(all, rest[0].0) {
            seq![rest[0]] + tail
        } else {
            tail
        }
    }
}

proof fn lemma_leaves_push(rest: Seq<(Seq<i32>, Ratio)>, e: (Seq<i32>, Ratio), all: Seq<
    (Seq<i32>, Ratio),
>)
    ensures
        leaves_of(rest.push(e), all) == leaves_of(rest, all) + (if leaf_in(all, e.0) {
            seq![e]
        } else {
            Seq::<(Seq<i32>, Ratio)>::empty()
        }),
    decreases rest.len(),
{
    let tail = if leaf_in(all, e.0) {
        seq![e]
    } else {
        Seq::<(Seq<i32>, Ratio)>::empty()
    };
    if rest.len() == 0 {
        assert(rest.push(e)[0] == e);
        assert(rest.push(e).drop_first() =~= Seq::<(Seq<i32>, Ratio)>::empty());
        assert(rest.push(e).drop_first() == Seq::<(Seq<i32>, Ratio)>::empty());
        assert(leaves_of(Seq::<(Seq<i32>, Ratio)>::empty(), all) == Seq::<
            (Seq<i32>, Ratio),
        >::empty());
        assert(leaves_of(rest.push(e), all) =~= tail);
        assert(leaves_of(rest, all) + tail =~= tail);
    } else {
        assert(rest.push(e)[0] == rest[0]);
        assert(rest.push(e).drop_first() =~= rest.drop_first().push(e));
        lemma_leaves_push(rest.drop_first(), e, all);
        if leaf_in(all, rest[0].0) {
            assert(leaves_of(rest.push(e), all) == seq![rest[0]] + (leaves_of(
                rest.drop_first(),
                all,
            ) + tail));
            assert(seq![rest[0]] + (leaves_of(rest.drop_first(), all) + tail) =~= (seq![rest[0]]
                + leaves_of(rest.drop_first(), all)) + tail);
        }
    }
}

/// The view of parsed entries.
pub open spec fn best_entries_view(es: Seq<(Cube, Ratio)>) -> Seq<(Seq<i32>, Ratio)> {
    Seq::new(es.len(), |i: int| (es[i].0.0@, es[i].1))
}

/// Read `best.log` up to its first blank line and keep the leaves: the
/// cubes that subsume no other cube of the log.
#[verifier::rlimit(50)]
pub fn parse_leaf_cubes(text: &str) -> (r: Result<Vec<(Cube, Ratio)>, ReconstructErr>)
    ensures
        match r {
            Ok(ls) => {
                &&& all_ascii(text@)
                &&& match parse_best_entries(split_lines_spec(char_bytes(text@))) {
                    Some(es) => best_entries_view(ls@) == leaves_of(es, es) && (forall|i: int|
                        0 <= i < ls@.len() ==> ratio_wf((#[trigger] ls@[i]).1)),
                    None => false,
                }
            },
            Err(_) => !all_ascii(text@) || parse_best_entries(split_lines_spec(char_bytes(text@)))
                is None,
        },
{
    let bytes = match str_to_bytes(text) {
        Some(b) => b,
        None => {
            return Err(ReconstructErr(String::from_str("the log is not ASCII text")));
        },
    };
    let lines = split_lines(&bytes);
    let ghost glines = split_lines_spec(bytes@);
    let mut entries: Vec<(Cube, Ratio)> = Vec::new();
    let n = lines.len();
    proof {
        assert(glines.skip(0) == glines);
        match parse_best_entries(glines) {
            Some(rest) => {
                assert(best_entries_view(entries@) + rest =~= rest);
            },
            None => {},
        }
    }
    let mut stopped = false;
    let mut i: usize = 0;
    while i < n && !stopped
        invariant
            n == lines@.len(),
            seq2(lines@) == glines,
            glines == split_lines_spec(bytes@),
            all_ascii(text@),
            bytes@ == char_bytes(text@),
            i <= n,
            !stopped ==> (parse_best_entries(glines.skip(i as int)) matches Some(rest)
                ==> parse_best_entries(glines) == Some(best_entries_view(entries@) + rest)),
            !stopped ==> (parse_best_entries(glines.skip(i as int)) is None
                ==> parse_best_entries(glines) is None),
            stopped ==> parse_best_entries(glines) == Some(best_entries_view(entries@)),
            forall|x: int| 0 <= x < entries@.len() ==> ratio_wf((#[trigger] entries@[x]).1),
        decreases n - i,
    {
        proof {
            assert(lines@[i as int]@ == glines[i as int]);
            assert(glines.skip(i as int)[0] == glines[i as int]);
            assert(glines.skip(i as int).drop_first() == glines.skip(i + 1));
        }
        let trimmed = trim_bytes(&lines[i]);
        if trimmed.len() == 0 {
            stopped = true;
            proof {
                let tail = glines.skip(i as int);
                assert(trim_spec(tail[0]).len() == 0);
                assert(parse_best_entries(tail) == Some(Seq::<(Seq<i32>, Ratio)>::empty()));
                assert(best_entries_view(entries@) + Seq::<(Seq<i32>, Ratio)>::empty()
                    =~= best_entries_view(entries@));
            }
        } else {
            let toks = split_bytes(&lines[i], 58u8);
            proof {
                crate::text::lemma_split_len(glines[i as int], 58u8);
            }
            if toks.len() < 2 {
                proof {
                    let tail = glines.skip(i as int);
                    assert(parse_best_line(tail[0]) is None);
                    assert(parse_best_entries(tail) is None);
                }
                return Err(ReconstructErr(String::from_str("a log line has no `:` separator")));
            }
            proof {
                assert(toks@[0]@ == split_on(glines[i as int], 58u8)[0]);
                assert(toks@[1]@ == split_on(glines[i as int], 58u8)[1]);
            }
            let cube = match Cube::from_bytes(&toks[0]) {
                Some(c) => c,
                None => {
                    proof {
                        let tail = glines.skip(i as int);
                        assert(parse_best_line(tail[0]) is None);
                        assert(parse_best_entries(tail) is None);
                    }
                    return Err(
                        ReconstructErr(String::from_str("failed to parse a cube in the log")),
                    );
                },
            };
            let mtxt = trim_bytes(&toks[1]);
            let metric = match Ratio::from_bytes(&mtxt) {
                Some(q) => q,
                None => {
                    proof {
                        let tail = glines.skip(i as int);
                        assert(parse_best_line(tail[0]) is None);
                        assert(parse_best_entries(tail) is None);
                    }
                    return Err(
                        ReconstructErr(String::from_str("failed to parse a metric in the log")),
                    );
                },
            };
            let ghost prev = best_entries_view(entries@);
            let ghost e = (cube.0@, metric);
            entries.push((cube, metric));
            proof {
                let tail = glines.skip(i as int);
                assert(parse_best_line(tail[0]) == Some(e));
                assert(trim_spec(tail[0]).len() != 0) by {
                    assert(trim_spec(glines[i as int]).len() != 0);
                }
                assert(best_entries_view(entries@) =~= prev.push(e));
                if parse_best_entries(glines.skip(i + 1)) is Some {
                    let rest = parse_best_entries(glines.skip(i + 1)).unwrap();
                    assert(parse_best_entries(tail) == Some(seq![e] + rest));
                    assert(prev + (seq![e] + rest) =~= prev.push(e) + rest);
                }
            }
        }
        i += 1;
    }
    proof {
        if !stopped {
            assert(i == n);
            assert(glines.skip(n as int) =~= Seq::<Seq<u8>>::empty());
            assert(glines.skip(n as int).len() == 0);
            assert(parse_best_entries(glines.skip(n as int)) == Some(
                Seq::<(Seq<i32>, Ratio)>::empty(),
            ));
            assert(best_entries_view(entries@) + Seq::<(Seq<i32>, Ratio)>::empty()
                =~= best_entries_view(entries@));
        }
    }
    let ghost all = best_entries_view(entries@);
    // keep the cubes that subsume no other cube
    let mut leaves: Vec<(Cube, Ratio)> = Vec::new();
    let m = entries.len();
    proof {
        assert(all.take(0) =~= Seq::<(Seq<i32>, Ratio)>::empty());
        assert(best_entries_view(leaves@) =~= leaves_of(all.take(0), all));
    }
    for i in 0..m
        invariant
            m == entries@.len(),
            all == best_entries_view(entries@),
            best_entries_view(leaves@) == leaves_of(all.take(i as int), all),
            forall|x: int| 0 <= x < entries@.len() ==> ratio_wf((#[trigger] entries@[x]).1),
            forall|x: int| 0 <= x < leaves@.len() ==> ratio_wf((#[trigger] leaves@[x]).1),
    {
        let mut is_leaf = true;
        for j in 0..m
            invariant
                m == entries@.len(),
                i < m,
                all == best_entries_view(entries@),
                is_leaf == (forall|y: int|
                    0 <= y < j ==> (#[trigger] all[y]).0 == all[i as int].0 || !subsumes_spec(
                        all[i as int].0,
                        all[y].0,
                    )),
        {
            proof {
                assert(all[j as int].0 == entries@[j as int].0.0@);
                assert(all[i as int].0 == entries@[i as int].0.0@);
            }
            let same = crate::tree_gen::lits_equal(&entries[i].0.0, &entries[j].0.0);
            if !same {
                let sub = entries[i].0.subsumes(&entries[j].0);
                if sub {
                    is_leaf = false;
                }
            }
            proof {
                let ok = all[j as int].0 == all[i as int].0 || !subsumes_spec(
                    all[i as int].0,
                    all[j as int].0,
                );
                if is_leaf && !ok {
                    assert(false);
                }
            }
        }
        let ghost prev = best_entries_view(leaves@);
        proof {
            assert(is_leaf == leaf_in(all, all[i as int].0));
            assert(all.take(i + 1) == all.take(i as int).push(all[i as int]));
            lemma_leaves_push(all.take(i as int), all[i as int], all);
        }
        if is_leaf {
            let c = Cube(crate::tree_gen::copy_lits(&entries[i].0.0));
            let q = entries[i].1;
            leaves.push((c, q));
            proof {
                assert(best_entries_view(leaves@) =~= prev.push(all[i as int]));
                assert(prev.push(all[i as int]) =~= prev + seq![all[i as int]]);
            }
        } else {
            proof {
                assert(best_entries_view(leaves@) =~= leaves_of(all.take(i + 1), all));
            }
        }
    }
    proof {
        assert(all.take(m as int) == all);
    }
    Ok(leaves)
}

/// The iCNF text of a list of leaves, one `a … 0` line each.
pub open spec fn icnf_text(ls: Seq<Seq<i32>>) -> Seq<u8>
    decreases ls.len(),
{
    if ls.len() == 0 {
        Seq::<u8>::empty()
    } else {
        icnf_text(ls.drop_last()) + icnf_line(ls.last())
    }
}

/// The views of the leaf cubes.
pub open spec fn leaf_cubes_view(ls: Seq<(Cube, Ratio)>) -> Seq<Seq<i32>> {
    Seq::new(ls.len(), |i: int| ls[i].0.0@)
}

/// Read `best.log` and render the leaves as iCNF text, the content of
/// `cubes.icnf`.
pub fn parse_best_log(text: &str) -> (r: Result<String, ReconstructErr>)
    ensures
        match r {
            Ok(out) => {
                &&& all_ascii(text@)
                &&& match parse_best_entries(split_lines_spec(char_bytes(text@))) {
                    Some(es) => out@ == ascii_view(
                        icnf_text(leaves_of(es, es).map(|_i: int, e: (Seq<i32>, Ratio)| e.0)),
                    ),
                    None => false,
                }
            },
            Err(_) => !all_ascii(text@) || parse_best_entries(split_lines_spec(char_bytes(text@)))
                is None,
        },
{
    let leaves = match parse_leaf_cubes(text) {
        Ok(ls) => ls,
        Err(e) => {
            return Err(e);
        },
    };
    let ghost lv = leaf_cubes_view(leaves@);
    let mut out = String::new();
    let n = leaves.len();
    proof {
        assert(lv.take(0) =~= Seq::<Seq<i32>>::empty());
        assert(out@ =~= ascii_view(icnf_text(lv.take(0))));
    }
    for i in 0..n
        invariant
            n == leaves@.len(),
            lv == leaf_cubes_view(leaves@),
            out@ == ascii_view(icnf_text(lv.take(i as int))),
    {
        let line = leaves[i].0.to_icnf_string();
        out.append(line.as_str());
        proof {
            assert(lv.take(i + 1).drop_last() == lv.take(i as int));
            assert(lv.take(i + 1).last() == lv[i as int]);
            assert(lv[i as int] == leaves@[i as int].0.0@);
            assert(out@ =~= ascii_view(icnf_text(lv.take(i + 1))));
        }
    }
    proof {
        assert(lv.take(n as int) == lv);
        let ghost es = parse_best_entries(split_lines_spec(char_bytes(text@))).unwrap();
        assert(lv =~= leaves_of(es, es).map(|_i: int, e: (Seq<i32>, Ratio)| e.0)) by {
            assert(best_entries_view(leaves@) == leaves_of(es, es));
            assert forall|x: int| 0 <= x < lv.len() implies lv[x] == leaves_of(es, es).map(
                |_i: int, e: (Seq<i32>, Ratio)| e.0,
            )[x] by {
                assert(best_entries_view(leaves@)[x] == (leaves@[x].0.0@, leaves@[x].1));
                assert(leaves_of(es, es)[x] == best_entries_view(leaves@)[x]);
            }
        }
    }
    Ok(out)
}

// ---------------------------------------------------------------------------
// Variable occurrence counts
// ---------------------------------------------------------------------------

/// How many literals of `lits` mention variable `v`.
pub open spec fn var_count_in(lits: Seq<i32>, v: int) -> int
    decreases lits.len(),
{
    if lits.len() == 0 {
        0
    } else {
        var_count_in(lits.drop_last(), v) + if crate::tree_gen::lit_var(
            lits.last() as int,
        ) == v {
            1int
        } else {
            0int
        }
    }
}

/// How many literals of all the leaves mention variable `v`.
pub open spec fn var_count_all(ls: Seq<Seq<i32>>, v: int) -> int
    decreases ls.len(),
{
    if ls.len() == 0 {
        0
    } else {
        var_count_all(ls.drop_last(), v) + var_count_in(ls.last(), v)
    }
}

/// A count held in a `usize`, capped at its maximum.
pub open spec fn capped(n: int) -> int {
    if n >= usize::MAX {
        usize::MAX as int
    } else {
        n
    }
}

/// The views of the cubes.
pub open spec fn cubes_view(ls: Seq<Cube>) -> Seq<Seq<i32>> {
    Seq::new(ls.len(), |k: int| ls[k].0@)
}

/// How often variable `v` occurs across the leaves, saturating at
/// `usize::MAX`.
pub fn count_var(leaves: &Vec<Cube>, v: u32) -> (r: usize)
    ensures
        r == capped(var_count_all(cubes_view(leaves@), v as int)),
{
    let ghost lv = cubes_view(leaves@);
    let mut acc: usize = 0;
    let n = leaves.len();
    proof {
        assert(lv.take(0) =~= Seq::<Seq<i32>>::empty());
        assert(var_count_all(lv.take(0), v as int) == 0);
    }
    for i in 0..n
        invariant
            n == leaves@.len(),
            lv == cubes_view(leaves@),
            acc == capped(var_count_all(lv.take(i as int), v as int)),
    {
        let cube = &leaves[i];
        let m = cube.0.len();
        proof {
            assert(cube.0@.take(0) =~= Seq::<i32>::empty());
            assert(var_count_in(cube.0@.take(0), v as int) == 0);
            lemma_var_count_all_nonneg(lv.take(i as int), v as int);
        }
        for j in 0..m
            invariant
                n == leaves@.len(),
                i < n,
                m == cube.0@.len(),
                cube.0@ == leaves@[i as int].0@,
                lv == cubes_view(leaves@),
                acc == capped(
                    var_count_all(lv.take(i as int), v as int) + var_count_in(
                        cube.0@.take(j as int),
                        v as int,
                    ),
                ),
        {
            let l = cube.0[j];
            let lvar: u32 = if l < 0 {
                ((-(l as i64)) as u32)
            } else {
                l as u32
            };
            proof {
                assert(cube.0@.take(j + 1).drop_last() == cube.0@.take(j as int));
                assert(cube.0@.take(j + 1).last() == cube.0@[j as int]);
                lemma_var_count_all_nonneg(lv.take(i as int), v as int);
                lemma_var_count_in_nonneg(cube.0@.take(j as int), v as int);
            }
            if lvar == v {
                proof {
                    assert(crate::tree_gen::lit_var(cube.0@[j as int] as int) == v as int);
                }
                if acc < usize::MAX {
                    acc = acc + 1;
                }
            } else {
                proof {
                    assert(crate::tree_gen::lit_var(cube.0@[j as int] as int) != v as int);
                }
            }
        }
        proof {
            assert(cube.0@.take(m as int) == cube.0@);
            assert(lv.take(i + 1).drop_last() == lv.take(i as int));
            assert(lv.take(i + 1).last() == lv[i as int]);
            assert(lv[i as int] == leaves@[i as int].0@);
        }
    }
    proof {
        assert(lv.take(n as int) == lv);
    }
    acc
}

/// Whether some entry of the count list is headed by variable `v`.
pub open spec fn lists_var(r: Seq<(u32, usize)>, v: int) -> bool {
    exists|x: int| 0 <= x < r.len() && (#[trigger] r[x]).0 as int == v
}

/// Count how often each variable occurs across the leaves, one entry per
/// distinct variable in order of first appearance (saturating at
/// `usize::MAX`).
pub fn variable_occurrences(leaves: &Vec<Cube>) -> (r: Vec<(u32, usize)>)
    ensures
        forall|i: int|
            0 <= i < r@.len() ==> (#[trigger] r@[i]).1 == capped(
                var_count_all(cubes_view(leaves@), r@[i].0 as int),
            ),
        forall|i: int, j: int| 0 <= i < j < r@.len() ==> r@[i].0 != r@[j].0,
        forall|k: int, j: int|
            #![trigger leaves@[k].0@[j]]
            0 <= k < leaves@.len() && 0 <= j < leaves@[k].0@.len() ==> lists_var(
                r@,
                crate::tree_gen::lit_var(leaves@[k].0@[j] as int),
            ),
{
    // first pass: the distinct variables, in order of first appearance
    let mut vars: Vec<u32> = Vec::new();
    let n = leaves.len();
    for i in 0..n
        invariant
            n == leaves@.len(),
            forall|x: int, y: int| 0 <= x < y < vars@.len() ==> vars@[x] != vars@[y],
            forall|k: int, j: int|
                #![trigger leaves@[k].0@[j]]
                0 <= k < i && 0 <= j < leaves@[k].0@.len() ==> vars@.contains(
                    (crate::tree_gen::lit_var(leaves@[k].0@[j] as int)) as u32,
                ),
    {
        let m = leaves[i].0.len();
        for j in 0..m
            invariant
                n == leaves@.len(),
                i < n,
                m == leaves@[i as int].0@.len(),
                forall|x: int, y: int| 0 <= x < y < vars@.len() ==> vars@[x] != vars@[y],
                forall|k: int, jj: int|
                    #![trigger leaves@[k].0@[jj]]
                    0 <= k < i && 0 <= jj < leaves@[k].0@.len() ==> vars@.contains(
                        (crate::tree_gen::lit_var(leaves@[k].0@[jj] as int)) as u32,
                    ),
                forall|jj: int|
                    0 <= jj < j ==> vars@.contains(
                        (crate::tree_gen::lit_var(
                            (#[trigger] leaves@[i as int].0@[jj]) as int,
                        )) as u32,
                    ),
        {
            let l = leaves[i].0[j];
            let v: u32 = if l < 0 {
                ((-(l as i64)) as u32)
            } else {
                l as u32
            };
            proof {
                assert(v as int == crate::tree_gen::lit_var(leaves@[i as int].0@[j as int] as int));
            }
            let mut present = false;
            let c = vars.len();
            for x in 0..c
                invariant
                    c == vars@.len(),
                    present ==> vars@.contains(v),
                    !present ==> forall|y: int| 0 <= y < x ==> vars@[y] != v,
            {
                if vars[x] == v {
                    proof {
                        assert(vars@[x as int] == v);
                    }
                    present = true;
                }
            }
            let ghost vars_before = vars@;
            if !present {
                vars.push(v);
                proof {
                    assert(vars@[vars@.len() - 1] == v);
                    assert(vars@.contains(v));
                }
            }
            proof {
                // earlier variables stay present when the list grows
                assert forall|w: u32| vars_before.contains(w) implies vars@.contains(w) by {
                    let wi = choose|wi: int| 0 <= wi < vars_before.len() && vars_before[wi] == w;
                    assert(vars@[wi] == w);
                }
                assert(vars@.contains(v));
            }
        }
    }
    // second pass: count each variable
    let mut counts: Vec<(u32, usize)> = Vec::new();
    let k = vars.len();
    for x in 0..k
        invariant
            k == vars@.len(),
            forall|a: int, b: int| 0 <= a < b < vars@.len() ==> vars@[a] != vars@[b],
            forall|kk: int, j: int|
                #![trigger leaves@[kk].0@[j]]
                0 <= kk < leaves@.len() && 0 <= j < leaves@[kk].0@.len() ==> vars@.contains(
                    (crate::tree_gen::lit_var(leaves@[kk].0@[j] as int)) as u32,
                ),
            counts@.len() == x,
            forall|a: int| 0 <= a < x ==> (#[trigger] counts@[a]).0 == vars@[a],
            forall|a: int|
                0 <= a < x ==> (#[trigger] counts@[a]).1 == capped(
                    var_count_all(cubes_view(leaves@), counts@[a].0 as int),
                ),
    {
        let v = vars[x];
        let c = count_var(leaves, v);
        counts.push((v, c));
    }
    proof {
        // every variable of every leaf was collected, and every collected
        // variable heads one count entry
        assert forall|kk: int, j: int|
            #![trigger leaves@[kk].0@[j]]
            0 <= kk < leaves@.len() && 0 <= j < leaves@[kk].0@.len() implies lists_var(
            counts@,
            crate::tree_gen::lit_var(leaves@[kk].0@[j] as int),
        ) by {
            let lv = crate::tree_gen::lit_var(leaves@[kk].0@[j] as int);
            assert(0 <= lv < 0x1_0000_0000);
            let w = lv as u32;
            assert(w as int == lv);
            assert(vars@.contains(w));
            let wi = choose|wi: int| 0 <= wi < vars@.len() && vars@[wi] == w;
            assert(counts@.len() == vars@.len());
            assert(counts@[wi].0 == w);
            assert(0 <= wi < counts@.len() && counts@[wi].0 as int == lv);
        }
    }
    counts
}

proof fn lemma_var_count_in_nonneg(lits: Seq<i32>, v: int)
    ensures
        0 <= var_count_in(lits, v) <= lits.len(),
    decreases lits.len(),
{
    if lits.len() > 0 {
        lemma_var_count_in_nonneg(lits.drop_last(), v);
    }
}

proof fn lemma_var_count_all_nonneg(ls: Seq<Seq<i32>>, v: int)
    ensures
        0 <= var_count_all(ls, v),
    decreases ls.len(),
{
    if ls.len() > 0 {
        lemma_var_count_all_nonneg(ls.drop_last(), v);
        lemma_var_count_in_nonneg(ls.last(), v);
    }
}

} // verus!
