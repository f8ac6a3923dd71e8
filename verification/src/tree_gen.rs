//! The search engine's decision core: termination check, candidate
//! enumeration, hypercube expansion, classification of results and
//! selection of the winning class. The surrounding process — spawning
//! solver runs and walking the tree — feeds these functions and acts on
//! what they return.

use crate::config::Comparator;
use crate::cube::Cube;
use crate::num::{
    ext_wf, improves_above, improves_below, metric_improves_above, metric_improves_below,
    prop_wf, ratio_lt, ratio_wf, ExtMetric, Ratio,
};
use vstd::arithmetic::power2::pow2;
use vstd::prelude::*;

verus! {

/// Whether the cube assigns variable `v`, with either sign.
pub open spec fn mentions_var(lits: Seq<i32>, v: int) -> bool {
    exists|i: int| 0 <= i < lits.len() && (lits[i] == v || lits[i] == -v)
}

/// Whether the cube assigns every variable of `vars`: the engine's
/// termination guard.
pub open spec fn all_vars_assigned(vars: Seq<u32>, lits: Seq<i32>) -> bool {
    forall|k: int| 0 <= k < vars.len() ==> mentions_var(lits, #[trigger] vars[k] as int)
}

/// Whether the literal `v` or its negation appears in `lits`.
fn mentions(lits: &Vec<i32>, v: u32) -> (r: bool)
    requires
        v <= i32::MAX,
    ensures
        r == mentions_var(lits@, v as int),
{
    let n = lits.len();
    for i in 0..n
        invariant
            n == lits@.len(),
            v <= i32::MAX,
            forall|j: int| 0 <= j < i ==> lits@[j] != v as int && lits@[j] != -(v as int),
    {
        if lits[i] == v as i32 || lits[i] == -(v as i32) {
            return true;
        }
    }
    false
}

/// The termination guard: every candidate variable already appears in the
/// cube, with either sign.
pub fn done_check(variables: &Vec<u32>, cube: &Cube) -> (r: bool)
    requires
        forall|k: int| 0 <= k < variables@.len() ==> (#[trigger] variables@[k]) <= i32::MAX,
    ensures
        r == all_vars_assigned(variables@, cube.0@),
{
    let n = variables.len();
    for k in 0..n
        invariant
            n == variables@.len(),
            forall|x: int| 0 <= x < variables@.len() ==> (#[trigger] variables@[x]) <= i32::MAX,
            forall|x: int| 0 <= x < k ==> mentions_var(cube.0@, #[trigger] variables@[x] as int),
    {
        if !mentions(&cube.0, variables[k]) {
            return false;
        }
    }
    true
}

// ---------------------------------------------------------------------------
// Hypercube enumeration
// ---------------------------------------------------------------------------

/// All sign assignments of `vars`, in the order produced by popping the
/// last variable first: entry `i` assigns variable `vars[j]` positively
/// exactly when bit `len-1-j` of `i` is clear.
pub open spec fn hyper_spec(vars: Seq<u32>) -> Seq<Seq<i32>>
    decreases vars.len(),
{
    if vars.len() == 0 {
        seq![Seq::<i32>::empty()]
    } else {
        let x = vars.last();
        let rest = hyper_spec(vars.drop_last());
        Seq::new(
            rest.len() * 2,
            |i: int|
                if i % 2 == 0 {
                    rest[i / 2].push(x as i32)
                } else {
                    rest[i / 2].push((-(x as int)) as i32)
                },
        )
    }
}

/// All sign assignments of the variables in `v`, which is drained.
pub fn hyper_vec(v: &mut Vec<u32>) -> (r: Vec<Vec<i32>>)
    requires
        forall|k: int| 0 <= k < old(v)@.len() ==> (#[trigger] old(v)@[k]) <= i32::MAX,
    ensures
        r@.map(|_i: int, x: Vec<i32>| x@) == hyper_spec(old(v)@),
        final(v)@.len() == 0,
    decreases old(v)@.len(),
{
    let ghost vars = v@;
    match v.pop() {
        Some(x) => {
            proof {
                assert(vars.drop_last() == v@);
                assert(vars.last() == x);
            }
            let res = hyper_vec(v);
            let ghost rest = hyper_spec(vars.drop_last());
            let mut output: Vec<Vec<i32>> = Vec::new();
            let n = res.len();
            for m in 0..n
                invariant
                    n == res@.len(),
                    res@.map(|_i: int, q: Vec<i32>| q@) == rest,
                    x == vars.last(),
                    x <= i32::MAX,
                    output@.len() == 2 * m,
                    forall|i: int|
                        0 <= i < 2 * m ==> (#[trigger] output@[i])@ == (if i % 2 == 0 {
                            rest[i / 2].push(x as i32)
                        } else {
                            rest[i / 2].push((-(x as int)) as i32)
                        }),
            {
                let mut mini = copy_i32_vec(&res, m);
                let mut mini_copy = copy_i32_vec(&res, m);
                mini.push(x as i32);
                mini_copy.push(-(x as i32));
                output.push(mini);
                output.push(mini_copy);
            }
            proof {
                assert(output@.map(|_i: int, q: Vec<i32>| q@) =~= hyper_spec(vars));
            }
            output
        },
        None => {
            let mut output: Vec<Vec<i32>> = Vec::new();
            output.push(Vec::new());
            proof {
                assert(output@.map(|_i: int, q: Vec<i32>| q@) =~= hyper_spec(vars));
            }
            output
        },
    }
}

/// A copy of element `m` of a vector of literal vectors.
fn copy_i32_vec(v: &Vec<Vec<i32>>, m: usize) -> (r: Vec<i32>)
    requires
        m < v@.len(),
    ensures
        r@ == v@[m as int]@,
{
    let mut out: Vec<i32> = Vec::new();
    let n = v[m].len();
    for i in 0..n
        invariant
            m < v@.len(),
            n == v@[m as int]@.len(),
            out@ == v@[m as int]@.subrange(0, i as int),
    {
        out.push(v[m][i]);
        proof {
            assert(v@[m as int]@.subrange(0, i + 1) == v@[m as int]@.subrange(0, i as int).push(
                v@[m as int]@[i as int],
            ));
        }
    }
    proof {
        assert(v@[m as int]@.subrange(0, n as int) == v@[m as int]@);
    }
    out
}

// ---------------------------------------------------------------------------
// Candidate enumeration
// ---------------------------------------------------------------------------

/// All `k`-element selections of `s`, in order: selections containing
/// `s[0]` first, then those from the rest.
pub open spec fn combos(s: Seq<u32>, k: nat) -> Seq<Seq<u32>>
    decreases s.len(), k,
{
    if k == 0 {
        seq![Seq::<u32>::empty()]
    } else if s.len() == 0 {
        Seq::<Seq<u32>>::empty()
    } else {
        combos(s.drop_first(), (k - 1) as nat).map(|_i: int, c: Seq<u32>| seq![s[0]] + c) + combos(
            s.drop_first(),
            k,
        )
    }
}

/// One unfolding of `combos`: the selections that keep the first element,
/// then those that drop it.
pub proof fn lemma_combos_unfold(s: Seq<u32>, k: nat)
    requires
        k >= 1,
        s.len() >= 1,
    ensures
        combos(s, k).len() == combos(s.drop_first(), (k - 1) as nat).len() + combos(
            s.drop_first(),
            k,
        ).len(),
        forall|x: int|
            0 <= x < combos(s.drop_first(), (k - 1) as nat).len() ==> #[trigger] combos(s, k)[x]
                == seq![s[0]] + combos(s.drop_first(), (k - 1) as nat)[x],
        forall|x: int|
            combos(s.drop_first(), (k - 1) as nat).len() <= x < combos(s, k).len()
                ==> #[trigger] combos(s, k)[x] == combos(s.drop_first(), k)[x - combos(
                s.drop_first(),
                (k - 1) as nat,
            ).len()],
{
    let inner = combos(s.drop_first(), (k - 1) as nat);
    let innerk = combos(s.drop_first(), k);
    let cl = |_i: int, c: Seq<u32>| seq![s[0]] + c;
    assert(combos(s, k) == inner.map(cl) + innerk);
    assert forall|x: int| 0 <= x < inner.len() implies #[trigger] combos(s, k)[x] == seq![s[0]]
        + inner[x] by {
        assert((inner.map(cl) + innerk)[x] == inner.map(cl)[x]);
        assert(inner.map(cl)[x] == cl(x, inner[x]));
    }
    assert forall|x: int| inner.len() <= x < combos(s, k).len() implies #[trigger] combos(s, k)[x]
        == innerk[x - inner.len()] by {
        assert((inner.map(cl) + innerk)[x] == innerk[x - inner.map(cl).len()]);
    }
}

/// All `k`-element selections of `v[from..]`.
pub fn combinations_from(v: &Vec<u32>, from: usize, k: usize) -> (r: Vec<Vec<u32>>)
    requires
        from <= v@.len(),
    ensures
        r@.map(|_i: int, c: Vec<u32>| c@) == combos(v@.skip(from as int), k as nat),
    decreases v@.len() - from, k,
{
    let ghost s = v@.skip(from as int);
    let mut out: Vec<Vec<u32>> = Vec::new();
    if k == 0 {
        out.push(Vec::new());
        proof {
            assert(out@.map(|_i: int, c: Vec<u32>| c@) =~= combos(s, 0));
        }
        return out;
    }
    if from == v.len() {
        proof {
            assert(s.len() == 0);
            assert(out@.map(|_i: int, c: Vec<u32>| c@) =~= combos(s, k as nat));
        }
        return out;
    }
    let head = v[from];
    proof {
        assert(s[0] == v@[from as int]);
        assert(s.drop_first() == v@.skip(from + 1));
    }
    let with_head = combinations_from(v, from + 1, k - 1);
    let n = with_head.len();
    for m in 0..n
        invariant
            n == with_head@.len(),
            from < v@.len(),
            head == v@[from as int],
            with_head@.map(|_i: int, c: Vec<u32>| c@) == combos(v@.skip(from + 1), (k - 1) as nat),
            out@.len() == m,
            forall|x: int|
                0 <= x < m ==> (#[trigger] out@[x])@ == seq![v@[from as int]] + with_head@[x]@,
    {
        let mut c: Vec<u32> = Vec::new();
        c.push(head);
        let p = with_head[m].len();
        for i in 0..p
            invariant
                p == with_head@[m as int]@.len(),
                m < with_head@.len(),
                c@ == seq![head] + with_head@[m as int]@.subrange(0, i as int),
        {
            c.push(with_head[m][i]);
            proof {
                assert(with_head@[m as int]@.subrange(0, i + 1) == with_head@[m as int]@.subrange(
                    0,
                    i as int,
                ).push(with_head@[m as int]@[i as int]));
            }
        }
        proof {
            assert(with_head@[m as int]@.subrange(0, p as int) == with_head@[m as int]@);
        }
        out.push(c);
    }
    let without_head = combinations_from(v, from + 1, k);
    let q = without_head.len();
    for m in 0..q
        invariant
            q == without_head@.len(),
            from < v@.len(),
            without_head@.map(|_i: int, c: Vec<u32>| c@) == combos(v@.skip(from + 1), k as nat),
            out@.len() == n + m,
            n == with_head@.len(),
            with_head@.map(|_i: int, c: Vec<u32>| c@) == combos(v@.skip(from + 1), (k - 1) as nat),
            forall|x: int|
                0 <= x < n ==> (#[trigger] out@[x])@ == seq![v@[from as int]] + with_head@[x]@,
            forall|x: int| 0 <= x < m ==> (#[trigger] out@[n + x])@ == without_head@[x]@,
    {
        let c = copy_u32_vec(&without_head, m);
        out.push(c);
    }
    proof {
        let lhs = out@.map(|_i: int, c: Vec<u32>| c@);
        let rhs = combos(s, k as nat);
        let inner = combos(s.drop_first(), (k - 1) as nat);
        let innerk = combos(s.drop_first(), k as nat);
        assert(s.drop_first() == v@.skip(from + 1));
        lemma_combos_unfold(s, k as nat);
        assert forall|x: int| 0 <= x < rhs.len() implies lhs[x] == rhs[x] by {
            if x < inner.len() {
                assert(rhs[x] == seq![s[0]] + inner[x]);
                assert(with_head@.map(|_i: int, c: Vec<u32>| c@)[x] == with_head@[x]@);
                assert(lhs[x] == out@[x]@);
            } else {
                assert(rhs[x] == innerk[x - inner.len()]);
                assert(without_head@.map(|_i: int, c: Vec<u32>| c@)[x - inner.len()]
                    == without_head@[x - inner.len()]@);
                assert(out@[n + (x - n)]@ == without_head@[x - n]@);
                assert(lhs[x] == out@[x]@);
            }
        }
        assert(lhs =~= rhs);
    }
    out
}

/// All `k`-element selections of the candidate variables.
pub fn combinations(v: &Vec<u32>, k: usize) -> (r: Vec<Vec<u32>>)
    ensures
        r@.map(|_i: int, c: Vec<u32>| c@) == combos(v@, k as nat),
{
    proof {
        assert(v@.skip(0) == v@);
    }
    combinations_from(v, 0, k)
}

fn copy_u32_vec(v: &Vec<Vec<u32>>, m: usize) -> (r: Vec<u32>)
    requires
        m < v@.len(),
    ensures
        r@ == v@[m as int]@,
{
    let mut out: Vec<u32> = Vec::new();
    let n = v[m].len();
    for i in 0..n
        invariant
            m < v@.len(),
            n == v@[m as int]@.len(),
            out@ == v@[m as int]@.subrange(0, i as int),
    {
        out.push(v[m][i]);
        proof {
            assert(v@[m as int]@.subrange(0, i + 1) == v@[m as int]@.subrange(0, i as int).push(
                v@[m as int]@[i as int],
            ));
        }
    }
    proof {
        assert(v@[m as int]@.subrange(0, n as int) == v@[m as int]@);
    }
    out
}

/// The number of candidate variables that the cube does not assign yet.
pub open spec fn valid_var_count(vars: Seq<u32>, lits: Seq<i32>) -> int
    decreases vars.len(),
{
    if vars.len() == 0 {
        0
    } else {
        valid_var_count(vars.drop_last(), lits) + if mentions_var(lits, vars.last() as int) {
            0int
        } else {
            1int
        }
    }
}

pub proof fn lemma_valid_var_count_bounds(vars: Seq<u32>, lits: Seq<i32>)
    ensures
        0 <= valid_var_count(vars, lits) <= vars.len(),
    decreases vars.len(),
{
    if vars.len() > 0 {
        lemma_valid_var_count_bounds(vars.drop_last(), lits);
    }
}

/// How many candidate variables are still unassigned in `cube`.
pub fn count_valid_vars(variables: &Vec<u32>, cube: &Cube) -> (r: usize)
    requires
        forall|k: int| 0 <= k < variables@.len() ==> (#[trigger] variables@[k]) <= i32::MAX,
    ensures
        r == valid_var_count(variables@, cube.0@),
{
    let mut count: usize = 0;
    let n = variables.len();
    for k in 0..n
        invariant
            n == variables@.len(),
            forall|x: int| 0 <= x < variables@.len() ==> (#[trigger] variables@[x]) <= i32::MAX,
            count == valid_var_count(variables@.subrange(0, k as int), cube.0@),
            count <= k,
        decreases n - k,
    {
        let hit = !mentions(&cube.0, variables[k]);
        proof {
            let a = variables@.subrange(0, k as int);
            let b = variables@.subrange(0, k + 1);
            assert(b.drop_last() == a);
            assert(b.last() == variables@[k as int]);
        }
        if hit {
            count += 1;
        }
    }
    proof {
        assert(variables@.subrange(0, n as int) == variables@);
    }
    count
}

// ---------------------------------------------------------------------------
// Classification
// ---------------------------------------------------------------------------

/// One solver run's outcome at a node: the extended cube, the evaluation
/// metric when the run succeeded, and the observed solver runtime. A
/// missing metric stands for a timeout or a per-run error.
#[derive(Debug, Clone)]
pub struct NodeResult {
    pub cube: Cube,
    pub metric: Option<crate::num::Ratio>,
    pub time_millis: Option<u64>,
}

/// A class of results: the candidates that extended the parent cube by
/// the same variables, in every sign assignment.
#[derive(Debug, Clone)]
pub struct ClassGroup {
    pub key: Vec<u32>,
    pub members: Vec<NodeResult>,
}

/// The variable of a literal.
pub open spec fn lit_var(l: int) -> int {
    if l < 0 {
        -l
    } else {
        l
    }
}

/// The class key of a produced cube: the variables of its last `d`
/// literals, in order (all of them when the cube is shorter).
pub open spec fn class_key(lits: Seq<i32>, d: int) -> Seq<u32> {
    let m = if lits.len() < d {
        lits.len() as int
    } else {
        d
    };
    Seq::new(m as nat, |j: int| lit_var(lits[lits.len() - m + j] as int) as u32)
}

/// The results whose cube falls in class `key`, in arrival order.
pub open spec fn results_with_key(rs: Seq<NodeResult>, key: Seq<u32>, d: int) -> Seq<NodeResult>
    decreases rs.len(),
{
    if rs.len() == 0 {
        Seq::<NodeResult>::empty()
    } else {
        let prior = results_with_key(rs.drop_last(), key, d);
        if class_key(rs.last().cube.0@, d) == key {
            prior.push(rs.last())
        } else {
            prior
        }
    }
}

/// The class key of a cube.
pub fn key_of(lits: &Vec<i32>, d: usize) -> (r: Vec<u32>)
    ensures
        r@ == class_key(lits@, d as int),
{
    let n = lits.len();
    let m = if n < d {
        n
    } else {
        d
    };
    let start = n - m;
    let mut out: Vec<u32> = Vec::new();
    for j in 0..m
        invariant
            m <= n == lits@.len(),
            start == n - m,
            out@.len() == j,
            forall|x: int| 0 <= x < j ==> out@[x] == lit_var(lits@[start + x] as int) as u32,
    {
        let l = lits[start + j];
        let v: u32 = if l < 0 {
            (-(l as i64)) as u32
        } else {
            l as u32
        };
        out.push(v);
    }
    proof {
        assert(out@ =~= class_key(lits@, d as int));
    }
    out
}

fn u32_vecs_equal(a: &Vec<u32>, b: &Vec<u32>) -> (r: bool)
    ensures
        r == (a@ == b@),
{
    if a.len() != b.len() {
        return false;
    }
    let n = a.len();
    for i in 0..n
        invariant
            n == a@.len() == b@.len(),
            forall|j: int| 0 <= j < i ==> a@[j] == b@[j],
    {
        if a[i] != b[i] {
            return false;
        }
    }
    proof {
        assert(a@ =~= b@);
    }
    true
}

/// A key's results are drawn from the result list.
proof fn lemma_results_with_key_subset(rs: Seq<NodeResult>, key: Seq<u32>, d: int)
    ensures
        forall|i: int|
            0 <= i < results_with_key(rs, key, d).len() ==> rs.contains(
                #[trigger] results_with_key(rs, key, d)[i],
            ),
    decreases rs.len(),
{
    if rs.len() > 0 {
        lemma_results_with_key_subset(rs.drop_last(), key, d);
        let prior = results_with_key(rs.drop_last(), key, d);
        assert forall|i: int| 0 <= i < results_with_key(rs, key, d).len() implies rs.contains(
            #[trigger] results_with_key(rs, key, d)[i],
        ) by {
            if i < prior.len() {
                assert(results_with_key(rs, key, d)[i] == prior[i]);
                assert(rs.drop_last().contains(prior[i]));
                let w = choose|w: int| 0 <= w < rs.drop_last().len() && rs.drop_last()[w] == prior[i];
                assert(rs[w] == prior[i]);
            } else {
                assert(results_with_key(rs, key, d)[i] == rs.last());
                assert(rs[rs.len() - 1] == rs.last());
            }
        }
    }
}

/// Group results by class key, preserving both the order in which keys
/// first appear and the arrival order within each class. Every group
/// holds at least one result, and only results of the input.
pub fn classify(results: Vec<NodeResult>, d: usize) -> (r: Vec<ClassGroup>)
    ensures
        forall|g: int|
            0 <= g < r@.len() ==> (#[trigger] r@[g]).members@ == results_with_key(
                results@,
                r@[g].key@,
                d as int,
            ),
        forall|g1: int, g2: int| 0 <= g1 < g2 < r@.len() ==> r@[g1].key@ != r@[g2].key@,
        forall|i: int|
            0 <= i < results@.len() ==> exists|g: int|
                0 <= g < r@.len() && (#[trigger] r@[g]).key@ == class_key(
                    (#[trigger] results@[i]).cube.0@,
                    d as int,
                ),
        forall|g: int| 0 <= g < r@.len() ==> (#[trigger] r@[g]).members@.len() >= 1,
        forall|g: int, i: int|
            #![trigger r@[g].members@[i]]
            0 <= g < r@.len() && 0 <= i < r@[g].members@.len() ==> results@.contains(
                r@[g].members@[i],
            ),
{
    let ghost all = results@;
    let mut rest = results;
    let total = rest.len();
    let mut groups: Vec<ClassGroup> = Vec::new();
    let mut i: usize = 0;
    proof {
        assert(rest@ == all.subrange(0, all.len() as int));
    }
    while rest.len() > 0
        invariant
            all.len() == total,
            i + rest@.len() == all.len(),
            rest@ == all.subrange(i as int, all.len() as int),
            forall|g: int|
                0 <= g < groups@.len() ==> (#[trigger] groups@[g]).members@ == results_with_key(
                    all.subrange(0, i as int),
                    groups@[g].key@,
                    d as int,
                ),
            forall|g1: int, g2: int|
                0 <= g1 < g2 < groups@.len() ==> groups@[g1].key@ != groups@[g2].key@,
            forall|x: int|
                0 <= x < i ==> exists|g: int|
                    0 <= g < groups@.len() && (#[trigger] groups@[g]).key@ == class_key(
                        (#[trigger] all[x]).cube.0@,
                        d as int,
                    ),
            forall|g: int| 0 <= g < groups@.len() ==> (#[trigger] groups@[g]).members@.len() >= 1,
        decreases rest@.len(),
    {
        let item = rest.remove(0);
        proof {
            assert(item == all[i as int]);
            assert(rest@ == all.subrange(i + 1, all.len() as int));
        }
        let key = key_of(&item.cube.0, d);
        let ghost prefix = all.subrange(0, i as int);
        let ghost next_prefix = all.subrange(0, i + 1);
        proof {
            assert(next_prefix.drop_last() == prefix);
            assert(next_prefix.last() == all[i as int]);
        }
        let mut found = false;
        let mut gi: usize = 0;
        let m = groups.len();
        for g in 0..m
            invariant
                m == groups@.len(),
                key@ == class_key(all[i as int].cube.0@, d as int),
                i < all.len(),
                found ==> gi < m && groups@[gi as int].key@ == key@,
                !found ==> forall|x: int| 0 <= x < g ==> groups@[x].key@ != key@,
                !found ==> gi == 0,
        {
            if !found && u32_vecs_equal(&groups[g].key, &key) {
                found = true;
                gi = g;
            }
        }
        if found {
            let ghost gprev = groups@;
            let mut grp = groups.remove(gi);
            grp.members.push(item);
            groups.insert(gi, grp);
            proof {
                assert(groups@.len() == gprev.len());
                assert(forall|x: int|
                    0 <= x < groups@.len() && x != gi ==> groups@[x] == #[trigger] gprev[x]);
                assert(groups@[gi as int].key@ == gprev[gi as int].key@);
                assert(groups@[gi as int].members@ == gprev[gi as int].members@.push(
                    all[i as int],
                ));
                assert forall|g: int|
                    0 <= g < groups@.len() implies (#[trigger] groups@[g]).members@
                    == results_with_key(next_prefix, groups@[g].key@, d as int) by {
                    if g == gi {
                        assert(groups@[g].key@ == key@);
                        assert(class_key(next_prefix.last().cube.0@, d as int) == key@);
                        assert(gprev[g].members@ == results_with_key(prefix, key@, d as int));
                    } else {
                        assert(groups@[g].key@ != key@);
                        assert(gprev[g].members@ == results_with_key(
                            prefix,
                            gprev[g].key@,
                            d as int,
                        ));
                    }
                }
                assert forall|x: int| 0 <= x < i + 1 implies exists|g: int|
                    0 <= g < groups@.len() && (#[trigger] groups@[g]).key@ == class_key(
                        (#[trigger] all[x]).cube.0@,
                        d as int,
                    ) by {
                    if x < i {
                        let g0 = choose|g0: int|
                            0 <= g0 < gprev.len() && (#[trigger] gprev[g0]).key@ == class_key(
                                all[x].cube.0@,
                                d as int,
                            );
                        assert(groups@[g0].key@ == gprev[g0].key@);
                    } else {
                        assert(groups@[gi as int].key@ == class_key(all[x].cube.0@, d as int));
                    }
                }
            }
        } else {
            let mut members: Vec<NodeResult> = Vec::new();
            members.push(item);
            let grp = ClassGroup { key, members };
            let ghost gprev = groups@;
            groups.push(grp);
            proof {
                let newkey = groups@[groups@.len() - 1].key@;
                assert(newkey == class_key(all[i as int].cube.0@, d as int));
                assert(forall|g: int| 0 <= g < gprev.len() ==> (#[trigger] gprev[g]).key@ != newkey);
                lemma_no_results_with_absent_key(prefix, newkey, d as int, all, i as int, gprev);
                assert forall|g: int|
                    0 <= g < groups@.len() implies (#[trigger] groups@[g]).members@
                    == results_with_key(next_prefix, groups@[g].key@, d as int) by {
                    if g < groups@.len() - 1 {
                        assert(groups@[g] == gprev[g]);
                        assert(groups@[g].key@ != newkey);
                        assert(gprev[g].members@ == results_with_key(
                            prefix,
                            gprev[g].key@,
                            d as int,
                        ));
                    } else {
                        assert(results_with_key(prefix, newkey, d as int) == Seq::<
                            NodeResult,
                        >::empty());
                        assert(class_key(next_prefix.last().cube.0@, d as int) == newkey);
                        assert(groups@[g].members@ == seq![all[i as int]]);
                    }
                }
                assert forall|x: int| 0 <= x < i + 1 implies exists|g: int|
                    0 <= g < groups@.len() && (#[trigger] groups@[g]).key@ == class_key(
                        (#[trigger] all[x]).cube.0@,
                        d as int,
                    ) by {
                    if x < i {
                        let g0 = choose|g0: int|
                            0 <= g0 < gprev.len() && (#[trigger] gprev[g0]).key@ == class_key(
                                all[x].cube.0@,
                                d as int,
                            );
                        assert(groups@[g0].key@ == gprev[g0].key@);
                    } else {
                        assert(groups@[groups@.len() - 1].key@ == class_key(
                            all[x].cube.0@,
                            d as int,
                        ));
                    }
                }
            }
        }
        i += 1;
    }
    proof {
        assert(all.subrange(0, all.len() as int) == all);
        assert forall|g: int, ix: int|
            #![trigger groups@[g].members@[ix]]
            0 <= g < groups@.len() && 0 <= ix < groups@[g].members@.len() implies all.contains(
            groups@[g].members@[ix],
        ) by {
            lemma_results_with_key_subset(all, groups@[g].key@, d as int);
            assert(groups@[g].members@ == results_with_key(all, groups@[g].key@, d as int));
        }
    }
    groups
}

/// A key that matches no result of the prefix collects no results.
proof fn lemma_no_results_with_absent_key(
    prefix: Seq<NodeResult>,
    key: Seq<u32>,
    d: int,
    all: Seq<NodeResult>,
    i: int,
    groups: Seq<ClassGroup>,
)
    requires
        0 <= i <= all.len(),
        prefix == all.subrange(0, i),
        forall|x: int|
            0 <= x < i ==> exists|g: int|
                0 <= g < groups.len() && (#[trigger] groups[g]).key@ == class_key(
                    (#[trigger] all[x]).cube.0@,
                    d,
                ),
        forall|g: int| 0 <= g < groups.len() ==> (#[trigger] groups[g]).key@ != key,
    ensures
        results_with_key(prefix, key, d) == Seq::<NodeResult>::empty(),
    decreases prefix.len(),
{
    if prefix.len() > 0 {
        assert(prefix.last() == all[i - 1]);
        assert(class_key(prefix.last().cube.0@, d) != key) by {
            let g = choose|g: int|
                0 <= g < groups.len() && (#[trigger] groups[g]).key@ == class_key(
                    all[i - 1].cube.0@,
                    d,
                );
            assert(groups[g].key@ != key);
        }
        assert(prefix.drop_last() == all.subrange(0, i - 1));
        lemma_no_results_with_absent_key(prefix.drop_last(), key, d, all, i - 1, groups);
    }
}

/// Whether two literal vectors hold the same literals in the same order.
pub fn lits_equal(a: &Vec<i32>, b: &Vec<i32>) -> (r: bool)
    ensures
        r == (a@ == b@),
{
    if a.len() != b.len() {
        return false;
    }
    let n = a.len();
    for i in 0..n
        invariant
            n == a@.len() == b@.len(),
            forall|j: int| 0 <= j < i ==> a@[j] == b@[j],
    {
        if a[i] != b[i] {
            return false;
        }
    }
    proof {
        assert(a@ =~= b@);
    }
    true
}

/// A copy of a literal vector.
pub fn copy_lits(v: &Vec<i32>) -> (r: Vec<i32>)
    ensures
        r@ == v@,
{
    let mut out: Vec<i32> = Vec::new();
    let n = v.len();
    for i in 0..n
        invariant
            n == v@.len(),
            out@ == v@.subrange(0, i as int),
    {
        out.push(v[i]);
        proof {
            assert(v@.subrange(0, i + 1) == v@.subrange(0, i as int).push(v@[i as int]));
        }
    }
    proof {
        assert(v@.subrange(0, n as int) == v@);
    }
    out
}

/// The hypercube of a variable set: `2^k` assignments, each assigning
/// every variable of the set exactly once (at its own position), and no
/// two assignments equal when the variables are distinct.
pub proof fn lemma_hyper_props(vars: Seq<u32>)
    requires
        forall|k: int| 0 <= k < vars.len() ==> 0 < (#[trigger] vars[k]) <= i32::MAX,
    ensures
        hyper_spec(vars).len() == pow2(vars.len()),
        forall|i: int|
            0 <= i < hyper_spec(vars).len() ==> (#[trigger] hyper_spec(vars)[i]).len()
                == vars.len(),
        forall|i: int, j: int|
            0 <= i < hyper_spec(vars).len() && 0 <= j < vars.len() ==> (#[trigger] hyper_spec(
                vars,
            )[i][j]) == vars[j] as int || hyper_spec(vars)[i][j] == -(vars[j] as int),
        vars.no_duplicates() ==> forall|i1: int, i2: int|
            0 <= i1 < i2 < hyper_spec(vars).len() ==> hyper_spec(vars)[i1] != hyper_spec(
                vars,
            )[i2],
    decreases vars.len(),
{
    if vars.len() == 0 {
        assert(pow2(0) == 1) by {
            vstd::arithmetic::power2::lemma2_to64();
        }
    } else {
        let x = vars.last();
        let prior = vars.drop_last();
        assert(forall|k: int| 0 <= k < prior.len() ==> prior[k] == #[trigger] vars[k]);
        assert(prior.no_duplicates() <== vars.no_duplicates()) by {
            if vars.no_duplicates() {
                assert(forall|p: int, q: int|
                    0 <= p < q < prior.len() ==> prior[p] == vars[p] && prior[q] == vars[q]
                        && vars[p] != vars[q]);
            }
        }
        lemma_hyper_props(prior);
        let rest = hyper_spec(prior);
        let whole = hyper_spec(vars);
        assert(whole.len() == rest.len() * 2);
        assert(pow2(vars.len()) == 2 * pow2(prior.len())) by {
            vstd::arithmetic::power2::lemma_pow2_unfold(vars.len() as nat);
        }
        // each element assigns each position
        assert forall|i: int, j: int|
            0 <= i < whole.len() && 0 <= j < vars.len() implies (#[trigger] whole[i][j]) == vars[j]
            || whole[i][j] == -(vars[j] as int) by {
            let half = i / 2;
            assert(0 <= half < rest.len());
            if j < vars.len() - 1 {
                assert(whole[i][j] == rest[half][j]);
                assert(prior[j] == vars[j]);
            } else {
                assert(whole[i][j] == (if i % 2 == 0 {
                    x as int
                } else {
                    -(x as int)
                }));
            }
        }
        if vars.no_duplicates() {
            assert forall|i1: int, i2: int| 0 <= i1 < i2 < whole.len() implies whole[i1]
                != whole[i2] by {
                let h1 = i1 / 2;
                let h2 = i2 / 2;
                if h1 == h2 {
                    // same prefix, opposite sign of the last variable
                    assert(i1 % 2 == 0 && i2 % 2 == 1);
                    assert(whole[i1].last() == x as int);
                    assert(whole[i2].last() == -(x as int));
                    assert(x as int != -(x as int));
                } else {
                    assert(rest[h1] != rest[h2]);
                    assert(rest[h1].len() == prior.len() && rest[h2].len() == prior.len());
                    assert(exists|d: int|
                        0 <= d < prior.len() && rest[h1][d] != #[trigger] rest[h2][d]) by {
                        if forall|d: int|
                            0 <= d < prior.len() ==> rest[h1][d] == #[trigger] rest[h2][d] {
                            assert(rest[h1] =~= rest[h2]);
                        }
                    }
                    let d = choose|d: int|
                        0 <= d < prior.len() && rest[h1][d] != #[trigger] rest[h2][d];
                    assert(whole[i1][d] == rest[h1][d] && whole[i2][d] == rest[h2][d]);
                }
            }
        }
    }
}

// ---------------------------------------------------------------------------
// Selection
// ---------------------------------------------------------------------------

/// The least metric of a nonempty sequence, by rational value; on ties the
/// earlier occurrence stands.
pub open spec fn seq_min_ratio(s: Seq<Ratio>) -> Ratio
    recommends
        s.len() >= 1,
    decreases s.len(),
{
    if s.len() <= 1 {
        s[0]
    } else {
        let m = seq_min_ratio(s.drop_last());
        if ratio_lt(s.last(), m) {
            s.last()
        } else {
            m
        }
    }
}

/// The greatest metric of a nonempty sequence.
pub open spec fn seq_max_ratio(s: Seq<Ratio>) -> Ratio
    recommends
        s.len() >= 1,
    decreases s.len(),
{
    if s.len() <= 1 {
        s[0]
    } else {
        let m = seq_max_ratio(s.drop_last());
        if ratio_lt(m, s.last()) {
            s.last()
        } else {
            m
        }
    }
}

/// The metrics of a class whose members all carry one.
pub open spec fn metrics_of(ms: Seq<NodeResult>) -> Seq<Ratio> {
    Seq::new(ms.len(), |i: int| ms[i].metric.unwrap())
}

/// A class is admissible when every member has a metric and every metric
/// strictly improves on `p * parent` in the comparator's direction.
pub open spec fn class_admissible(
    ms: Seq<NodeResult>,
    cmp: Comparator,
    p: Ratio,
    parent: ExtMetric,
) -> bool {
    forall|i: int|
        0 <= i < ms.len() ==> (#[trigger] ms[i]).metric is Some && (match cmp {
            Comparator::MaxOfMin => improves_above(ms[i].metric.unwrap(), p, parent),
            Comparator::MinOfMax => improves_below(ms[i].metric.unwrap(), p, parent),
        })
}

/// The score of an admissible class: its least metric when maximizing
/// minima, its greatest when minimizing maxima.
pub open spec fn class_score(ms: Seq<NodeResult>, cmp: Comparator) -> Ratio {
    match cmp {
        Comparator::MaxOfMin => seq_min_ratio(metrics_of(ms)),
        Comparator::MinOfMax => seq_max_ratio(metrics_of(ms)),
    }
}

/// Whether score `a` is strictly better than score `b` in the
/// comparator's direction.
pub open spec fn score_beats(cmp: Comparator, a: Ratio, b: Ratio) -> bool {
    match cmp {
        Comparator::MaxOfMin => ratio_lt(b, a),
        Comparator::MinOfMax => ratio_lt(a, b),
    }
}

/// A member of the winning class, with its metric and observed solver
/// runtime made definite.
#[derive(Debug, Clone)]
pub struct SelectedMember {
    pub cube: Cube,
    pub metric: Ratio,
    pub time_millis: u64,
}

/// `w` carries exactly the cubes, metrics and runtimes of `ms`.
pub open spec fn selected_from(w: Seq<SelectedMember>, ms: Seq<NodeResult>) -> bool {
    &&& w.len() == ms.len()
    &&& forall|i: int|
        0 <= i < w.len() ==> (#[trigger] w[i]).cube.0@ == ms[i].cube.0@ && ms[i].metric == Some(
            w[i].metric,
        ) && ms[i].time_millis == Some(w[i].time_millis)
}

/// What the runner guarantees of every result it hands the engine: a
/// well-formed metric, and an observed runtime whenever there is a metric.
pub open spec fn member_wf(m: NodeResult) -> bool {
    match m.metric {
        Some(q) => ratio_wf(q) && m.time_millis is Some,
        None => true,
    }
}

pub open spec fn classes_wf(classes: Seq<ClassGroup>) -> bool {
    &&& forall|g: int| 0 <= g < classes.len() ==> (#[trigger] classes[g]).members@.len() >= 1
    &&& forall|g: int, i: int|
        0 <= g < classes.len() && 0 <= i < (#[trigger] classes[g]).members@.len() ==> member_wf(
            #[trigger] classes[g].members@[i],
        )
}

fn score_beats_exec(cmp: Comparator, a: &Ratio, b: &Ratio) -> (r: bool)
    requires
        ratio_wf(*a),
        ratio_wf(*b),
    ensures
        r == score_beats(cmp, *a, *b),
{
    match cmp {
        Comparator::MaxOfMin => b.lt(a),
        Comparator::MinOfMax => a.lt(b),
    }
}

/// Select the winning class: among the admissible classes, the one whose
/// score no other admissible class strictly betters; its members are
/// returned with metric and runtime unwrapped. `None` when no class is
/// admissible. When several classes tie, a later one stands, as a fold
/// that keeps the incumbent only on a strict win would leave it.
pub fn compare(
    cmp: Comparator,
    classes: &Vec<ClassGroup>,
    cutoff_proportion: &Ratio,
    prev_metric: &ExtMetric,
) -> (r: Option<Vec<SelectedMember>>)
    requires
        prop_wf(*cutoff_proportion),
        ext_wf(*prev_metric),
        classes_wf(classes@),
    ensures
        match r {
            Some(w) => exists|g: int|
                0 <= g < classes@.len() && class_admissible(
                    (#[trigger] classes@[g]).members@,
                    cmp,
                    *cutoff_proportion,
                    *prev_metric,
                ) && selected_from(w@, classes@[g].members@) && (forall|g2: int|
                    0 <= g2 < classes@.len() && class_admissible(
                        (#[trigger] classes@[g2]).members@,
                        cmp,
                        *cutoff_proportion,
                        *prev_metric,
                    ) ==> !score_beats(
                        cmp,
                        class_score(classes@[g2].members@, cmp),
                        class_score(classes@[g].members@, cmp),
                    )),
            None => forall|g: int|
                0 <= g < classes@.len() ==> !class_admissible(
                    (#[trigger] classes@[g]).members@,
                    cmp,
                    *cutoff_proportion,
                    *prev_metric,
                ),
        },
{
    let p = cutoff_proportion;
    let parent = prev_metric;
    let mut best: Option<Vec<SelectedMember>> = None;
    let mut best_score = Ratio::from_int(0);
    let ghost mut best_g: int = 0int;
    let n = classes.len();
    for g in 0..n
        invariant
            n == classes@.len(),
            prop_wf(*p),
            ext_wf(*parent),
            classes_wf(classes@),
            match best {
                Some(w) => 0 <= best_g < g && ratio_wf(best_score) && class_admissible(
                    classes@[best_g].members@,
                    cmp,
                    *p,
                    *parent,
                ) && selected_from(w@, classes@[best_g].members@) && best_score == class_score(
                    classes@[best_g].members@,
                    cmp,
                ) && (forall|g2: int|
                    0 <= g2 < g && class_admissible(
                        (#[trigger] classes@[g2]).members@,
                        cmp,
                        *p,
                        *parent,
                    ) ==> !score_beats(cmp, class_score(classes@[g2].members@, cmp), best_score)),
                None => forall|g2: int|
                    0 <= g2 < g ==> !class_admissible(
                        (#[trigger] classes@[g2]).members@,
                        cmp,
                        *p,
                        *parent,
                    ),
            },
    {
        let members = &classes[g].members;
        let m = members.len();
        proof {
            assert(members@ == classes@[g as int].members@);
            assert(m >= 1);
        }
        // is every member's metric present and strictly improving?
        let mut adm = true;
        for i in 0..m
            invariant
                m == members@.len(),
                members@ == classes@[g as int].members@,
                g < classes@.len(),
                classes_wf(classes@),
                prop_wf(*p),
                ext_wf(*parent),
                adm ==> forall|j: int|
                    0 <= j < i ==> (#[trigger] members@[j]).metric is Some && (match cmp {
                        Comparator::MaxOfMin => improves_above(
                            members@[j].metric.unwrap(),
                            *p,
                            *parent,
                        ),
                        Comparator::MinOfMax => improves_below(
                            members@[j].metric.unwrap(),
                            *p,
                            *parent,
                        ),
                    }),
                !adm ==> !class_admissible(members@, cmp, *p, *parent),
        {
            if adm {
                proof {
                    assert(member_wf(classes@[g as int].members@[i as int]));
                }
                match &members[i].metric {
                    Some(q) => {
                        let ok = match cmp {
                            Comparator::MaxOfMin => metric_improves_above(q, p, parent),
                            Comparator::MinOfMax => metric_improves_below(q, p, parent),
                        };
                        if !ok {
                            adm = false;
                        }
                    },
                    None => {
                        adm = false;
                    },
                }
            }
        }
        if adm {
            proof {
                assert(class_admissible(members@, cmp, *p, *parent));
            }
            // the class score: fold of its metrics in the comparator's direction
            let first = match &members[0].metric {
                Some(q) => *q,
                None => {
                    proof {
                        assert(false);
                    }
                    Ratio::from_int(0)
                },
            };
            let mut sc = first;
            proof {
                assert(metrics_of(members@.subrange(0, 1)) =~= seq![members@[0].metric.unwrap()]);
                assert(sc == class_score(members@.subrange(0, 1), cmp));
                assert(member_wf(classes@[g as int].members@[0]));
            }
            for i in 1..m
                invariant
                    1 <= i <= m == members@.len(),
                    members@ == classes@[g as int].members@,
                    g < classes@.len(),
                    classes_wf(classes@),
                    class_admissible(members@, cmp, *p, *parent),
                    ratio_wf(sc),
                    sc == class_score(members@.subrange(0, i as int), cmp),
            {
                proof {
                    assert(member_wf(classes@[g as int].members@[i as int]));
                    assert(members@[i as int].metric is Some);
                }
                let q = match &members[i].metric {
                    Some(q) => *q,
                    None => {
                        proof {
                            assert(false);
                        }
                        Ratio::from_int(0)
                    },
                };
                let take_new = match cmp {
                    Comparator::MaxOfMin => q.lt(&sc),
                    Comparator::MinOfMax => sc.lt(&q),
                };
                proof {
                    let a = metrics_of(members@.subrange(0, i as int));
                    let b = metrics_of(members@.subrange(0, i + 1));
                    assert(b.drop_last() =~= a);
                    assert(b.last() == members@[i as int].metric.unwrap());
                    assert(b.len() == i + 1);
                }
                if take_new {
                    sc = q;
                }
            }
            proof {
                assert(members@.subrange(0, m as int) == members@);
            }
            // the members with metric and runtime made definite
            let mut w: Vec<SelectedMember> = Vec::new();
            for i in 0..m
                invariant
                    m == members@.len(),
                    members@ == classes@[g as int].members@,
                    g < classes@.len(),
                    classes_wf(classes@),
                    class_admissible(members@, cmp, *p, *parent),
                    selected_from(w@, members@.subrange(0, i as int)),
            {
                proof {
                    assert(member_wf(classes@[g as int].members@[i as int]));
                    assert(members@[i as int].metric is Some);
                    assert(members@[i as int].time_millis is Some);
                }
                let q = match &members[i].metric {
                    Some(q) => *q,
                    None => {
                        proof {
                            assert(false);
                        }
                        Ratio::from_int(0)
                    },
                };
                let t = match &members[i].time_millis {
                    Some(t) => *t,
                    None => {
                        proof {
                            assert(false);
                        }
                        0u64
                    },
                };
                let sel = SelectedMember {
                    cube: Cube(copy_lits(&members[i].cube.0)),
                    metric: q,
                    time_millis: t,
                };
                w.push(sel);
                proof {
                    assert(members@.subrange(0, i + 1).drop_last() == members@.subrange(
                        0,
                        i as int,
                    ));
                    assert(selected_from(w@, members@.subrange(0, i + 1)));
                }
            }
            proof {
                assert(members@.subrange(0, m as int) == members@);
            }
            // keep the incumbent only on a strict win
            let replace = match &best {
                None => true,
                Some(_) => !score_beats_exec(cmp, &best_score, &sc),
            };
            if replace {
                proof {
                    if best is Some {
                        let ghost old_score = best_score;
                        assert forall|g2: int|
                            0 <= g2 < g + 1 && class_admissible(
                                (#[trigger] classes@[g2]).members@,
                                cmp,
                                *p,
                                *parent,
                            ) implies !score_beats(
                            cmp,
                            class_score(classes@[g2].members@, cmp),
                            sc,
                        ) by {
                            if g2 < g {
                                assert(!score_beats(
                                    cmp,
                                    class_score(classes@[g2].members@, cmp),
                                    old_score,
                                ));
                                assert(forall|i: int|
                                    0 <= i < classes@[g2].members@.len() ==> member_wf(
                                        #[trigger] classes@[g2].members@[i],
                                    ));
                                lemma_class_score_wf(classes@[g2].members@, cmp);
                                lemma_not_beats_trans(
                                    cmp,
                                    class_score(classes@[g2].members@, cmp),
                                    old_score,
                                    sc,
                                    classes@,
                                    g2,
                                    *p,
                                    *parent,
                                );
                            }
                        }
                    }
                }
                best = Some(w);
                best_score = sc;
                proof {
                    best_g = g as int;
                }
            } else {
                proof {
                    assert(score_beats(cmp, best_score, sc));
                    assert(!score_beats(cmp, sc, best_score));
                }
            }
        }
    }
    best
}

/// The least and greatest metrics of a nonempty sequence are among its
/// elements.
proof fn lemma_seq_min_in(s: Seq<Ratio>)
    requires
        s.len() >= 1,
    ensures
        s.contains(seq_min_ratio(s)),
    decreases s.len(),
{
    if s.len() == 1 {
        assert(s[0] == seq_min_ratio(s));
    } else {
        let prior = s.drop_last();
        lemma_seq_min_in(prior);
        if ratio_lt(s.last(), seq_min_ratio(prior)) {
            assert(s[s.len() - 1] == seq_min_ratio(s));
        } else {
            let i = choose|i: int| 0 <= i < prior.len() && prior[i] == seq_min_ratio(prior);
            assert(s[i] == seq_min_ratio(s));
        }
    }
}

proof fn lemma_seq_max_in(s: Seq<Ratio>)
    requires
        s.len() >= 1,
    ensures
        s.contains(seq_max_ratio(s)),
    decreases s.len(),
{
    if s.len() == 1 {
        assert(s[0] == seq_max_ratio(s));
    } else {
        let prior = s.drop_last();
        lemma_seq_max_in(prior);
        if ratio_lt(seq_max_ratio(prior), s.last()) {
            assert(s[s.len() - 1] == seq_max_ratio(s));
        } else {
            let i = choose|i: int| 0 <= i < prior.len() && prior[i] == seq_max_ratio(prior);
            assert(s[i] == seq_max_ratio(s));
        }
    }
}

/// The score of a class whose members all carry well-formed metrics is
/// itself well-formed.
pub proof fn lemma_class_score_wf(ms: Seq<NodeResult>, cmp: Comparator)
    requires
        ms.len() >= 1,
        forall|i: int| 0 <= i < ms.len() ==> member_wf(#[trigger] ms[i]) && ms[i].metric is Some,
    ensures
        ratio_wf(class_score(ms, cmp)),
{
    let qs = metrics_of(ms);
    assert(forall|i: int| 0 <= i < qs.len() ==> ratio_wf(#[trigger] qs[i])) by {
        assert(forall|i: int|
            0 <= i < ms.len() ==> member_wf(#[trigger] ms[i]) && ms[i].metric is Some);
    }
    match cmp {
        Comparator::MaxOfMin => {
            lemma_seq_min_in(qs);
            let i = choose|i: int| 0 <= i < qs.len() && qs[i] == seq_min_ratio(qs);
            assert(ratio_wf(qs[i]));
        },
        Comparator::MinOfMax => {
            lemma_seq_max_in(qs);
            let i = choose|i: int| 0 <= i < qs.len() && qs[i] == seq_max_ratio(qs);
            assert(ratio_wf(qs[i]));
        },
    }
}

/// Scores that do not strictly beat chain through an intermediate score.
proof fn lemma_not_beats_trans(
    cmp: Comparator,
    a: Ratio,
    b: Ratio,
    c: Ratio,
    classes: Seq<ClassGroup>,
    g2: int,
    p: Ratio,
    parent: ExtMetric,
)
    requires
        ratio_wf(a),
        ratio_wf(b),
        ratio_wf(c),
        !score_beats(cmp, a, b),
        !score_beats(cmp, b, c),
    ensures
        !score_beats(cmp, a, c),
{
    match cmp {
        Comparator::MaxOfMin => {
            crate::num::lemma_ratio_le_trans(a, b, c);
        },
        Comparator::MinOfMax => {
            crate::num::lemma_ratio_le_trans(c, b, a);
        },
    }
}

/// Whether the search should recurse into a member of the winning class:
/// it stops as a leaf once the comparator-directed cutoff is met.
pub fn should_recurse(cmp: Comparator, metric: &Ratio, cutoff: &Ratio) -> (r: bool)
    requires
        ratio_wf(*metric),
        ratio_wf(*cutoff),
    ensures
        cmp is MaxOfMin ==> r == ratio_lt(*metric, *cutoff),
        cmp is MinOfMax ==> r == ratio_lt(*cutoff, *metric),
{
    match cmp {
        Comparator::MaxOfMin => metric.lt(cutoff),
        Comparator::MinOfMax => cutoff.lt(metric),
    }
}


// ---------------------------------------------------------------------------
// Node candidates
// ---------------------------------------------------------------------------

/// A selection may extend the cube only when the cube assigns none of its
/// variables yet.
pub open spec fn selection_ok(sel: Seq<u32>, cube: Seq<i32>) -> bool {
    forall|j: int| 0 <= j < sel.len() ==> !mentions_var(cube, (#[trigger] sel[j]) as int)
}

/// The cube extended by each sign assignment, in enumeration order.
pub open spec fn extended_cubes(exts: Seq<Seq<i32>>, cube: Seq<i32>) -> Seq<Seq<i32>> {
    Seq::new(exts.len(), |i: int| cube + exts[i])
}

/// The candidate cubes of a node: for each admissible selection, in
/// order, the cube extended by each of its sign assignments.
pub open spec fn node_candidates(sels: Seq<Seq<u32>>, cube: Seq<i32>) -> Seq<Seq<i32>>
    decreases sels.len(),
{
    if sels.len() == 0 {
        Seq::<Seq<i32>>::empty()
    } else {
        let head = if selection_ok(sels[0], cube) {
            extended_cubes(hyper_spec(sels[0]), cube)
        } else {
            Seq::<Seq<i32>>::empty()
        };
        head + node_candidates(sels.drop_first(), cube)
    }
}

proof fn lemma_node_candidates_push(sels: Seq<Seq<u32>>, x: Seq<u32>, cube: Seq<i32>)
    ensures
        node_candidates(sels.push(x), cube) == node_candidates(sels, cube) + (if selection_ok(
            x,
            cube,
        ) {
            extended_cubes(hyper_spec(x), cube)
        } else {
            Seq::<Seq<i32>>::empty()
        }),
    decreases sels.len(),
{
    let tail = if selection_ok(x, cube) {
        extended_cubes(hyper_spec(x), cube)
    } else {
        Seq::<Seq<i32>>::empty()
    };
    if sels.len() == 0 {
        assert(sels.push(x)[0] == x);
        assert(sels.push(x).drop_first() =~= Seq::<Seq<u32>>::empty());
        assert(sels.push(x).drop_first() == Seq::<Seq<u32>>::empty());
        assert(node_candidates(Seq::<Seq<u32>>::empty(), cube) == Seq::<Seq<i32>>::empty());
        assert(node_candidates(sels.push(x), cube) == tail + Seq::<Seq<i32>>::empty());
        assert(tail + Seq::<Seq<i32>>::empty() =~= tail);
        assert(node_candidates(sels, cube) + tail =~= tail);
    } else {
        assert(sels.push(x)[0] == sels[0]);
        assert(sels.push(x).drop_first() =~= sels.drop_first().push(x));
        lemma_node_candidates_push(sels.drop_first(), x, cube);
        let head = if selection_ok(sels[0], cube) {
            extended_cubes(hyper_spec(sels[0]), cube)
        } else {
            Seq::<Seq<i32>>::empty()
        };
        assert(node_candidates(sels.push(x), cube) == head + (node_candidates(
            sels.drop_first(),
            cube,
        ) + tail));
        assert(head + (node_candidates(sels.drop_first(), cube) + tail) =~= (head
            + node_candidates(sels.drop_first(), cube)) + tail);
    }
}

/// Every variable of every selection comes from the candidate set.
proof fn lemma_combos_elements(s: Seq<u32>, k: nat)
    ensures
        forall|x: int, j: int|
            0 <= x < combos(s, k).len() && 0 <= j < (#[trigger] combos(s, k)[x]).len()
                ==> s.contains(#[trigger] combos(s, k)[x][j]),
    decreases s.len(), k,
{
    if k == 0 || s.len() == 0 {
    } else {
        lemma_combos_elements(s.drop_first(), (k - 1) as nat);
        lemma_combos_elements(s.drop_first(), k);
        lemma_combos_unfold(s, k);
        let inner = combos(s.drop_first(), (k - 1) as nat);
        let innerk = combos(s.drop_first(), k);
        assert forall|x: int, j: int|
            0 <= x < combos(s, k).len() && 0 <= j < (#[trigger] combos(s, k)[x]).len() implies
            s.contains(#[trigger] combos(s, k)[x][j]) by {
            if x < inner.len() {
                assert(combos(s, k)[x] == seq![s[0]] + inner[x]);
                if j == 0 {
                    assert(combos(s, k)[x][j] == s[0]);
                    assert(s.contains(s[0]));
                } else {
                    assert(combos(s, k)[x][j] == inner[x][j - 1]);
                    assert(s.drop_first().contains(inner[x][j - 1]));
                    let i0 = choose|i0: int|
                        0 <= i0 < s.drop_first().len() && s.drop_first()[i0] == inner[x][j - 1];
                    assert(s[i0 + 1] == inner[x][j - 1]);
                }
            } else {
                assert(combos(s, k)[x] == innerk[x - inner.len()]);
                assert(s.drop_first().contains(combos(s, k)[x][j]));
                let i0 = choose|i0: int|
                    0 <= i0 < s.drop_first().len() && s.drop_first()[i0] == combos(s, k)[x][j];
                assert(s[i0 + 1] == combos(s, k)[x][j]);
            }
        }
    }
}

/// The clamped search depth and the candidate cubes of a node: all
/// `d`-variable selections that the cube does not yet touch, each in all
/// of its sign assignments, appended to the cube.
pub fn candidates(variables: &Vec<u32>, search_depth: u32, cube: &Cube) -> (r: (usize, Vec<Cube>))
    requires
        forall|k: int| 0 <= k < variables@.len() ==> (#[trigger] variables@[k]) <= i32::MAX,
    ensures
        r.0 == if search_depth <= valid_var_count(variables@, cube.0@) {
            search_depth as int
        } else {
            valid_var_count(variables@, cube.0@)
        },
        r.1@.map(|_i: int, c: Cube| c.0@) == node_candidates(
            combos(variables@, r.0 as nat),
            cube.0@,
        ),
{
    let valid = count_valid_vars(variables, cube);
    let d: usize = if search_depth as usize <= valid {
        search_depth as usize
    } else {
        valid
    };
    let sels = combinations(variables, d);
    let ghost gsels = combos(variables@, d as nat);
    proof {
        lemma_combos_elements(variables@, d as nat);
        assert(gsels.take(0) =~= Seq::<Seq<u32>>::empty());
    }
    let mut out: Vec<Cube> = Vec::new();
    let n = sels.len();
    for x in 0..n
        invariant
            n == sels@.len(),
            sels@.map(|_i: int, c: Vec<u32>| c@) == gsels,
            gsels == combos(variables@, d as nat),
            forall|k: int| 0 <= k < variables@.len() ==> (#[trigger] variables@[k]) <= i32::MAX,
            forall|y: int, j: int|
                0 <= y < gsels.len() && 0 <= j < (#[trigger] gsels[y]).len() ==> variables@.contains(
                    #[trigger] gsels[y][j],
                ),
            out@.map(|_i: int, c: Cube| c.0@) == node_candidates(gsels.take(x as int), cube.0@),
    {
        let sel = &sels[x];
        proof {
            assert(sel@ == sels@.map(|_i: int, c: Vec<u32>| c@)[x as int]);
            assert(sel@ == gsels[x as int]);
            assert forall|j: int| 0 <= j < sel@.len() implies (#[trigger] sel@[j]) <= i32::MAX by {
                assert(variables@.contains(gsels[x as int][j]));
                let k0 = choose|k0: int|
                    0 <= k0 < variables@.len() && variables@[k0] == gsels[x as int][j];
            }
        }
        let m = sel.len();
        let mut ok = true;
        for j in 0..m
            invariant
                m == sel@.len(),
                sel@ == gsels[x as int],
                x < gsels.len(),
                forall|y: int| 0 <= y < sel@.len() ==> (#[trigger] sel@[y]) <= i32::MAX,
                ok == (forall|y: int|
                    0 <= y < j ==> !mentions_var(cube.0@, (#[trigger] sel@[y]) as int)),
        {
            let hit = mentions(&cube.0, sel[j]);
            if hit {
                ok = false;
                proof {
                    assert(mentions_var(cube.0@, sel@[j as int] as int));
                }
            }
            proof {
                if !ok {
                    if forall|y: int|
                        0 <= y < j + 1 ==> !mentions_var(cube.0@, (#[trigger] sel@[y]) as int) {
                        assert(!mentions_var(cube.0@, sel@[j as int] as int));
                    }
                }
            }
        }
        let ghost prev = out@.map(|_i: int, c: Cube| c.0@);
        proof {
            lemma_node_candidates_push(gsels.take(x as int), gsels[x as int], cube.0@);
            assert(gsels.take(x + 1) == gsels.take(x as int).push(gsels[x as int]));
        }
        if ok {
            proof {
                assert(selection_ok(gsels[x as int], cube.0@));
            }
            let mut sel_copy = copy_u32_vec(&sels, x);
            let hv = hyper_vec(&mut sel_copy);
            let ghost exts = hyper_spec(gsels[x as int]);
            let ghost plen = out@.len() as int;
            let t = hv.len();
            for y in 0..t
                invariant
                    t == hv@.len(),
                    hv@.map(|_i: int, q: Vec<i32>| q@) == exts,
                    out@.len() == plen + y,
                    0 <= plen,
                    forall|i: int| 0 <= i < plen ==> (#[trigger] out@[i]).0@ == prev[i],
                    prev.len() == plen,
                    forall|i: int|
                        0 <= i < y ==> (#[trigger] out@[plen + i]).0@ == cube.0@ + exts[i],
                    prev == node_candidates(gsels.take(x as int), cube.0@),
            {
                let ext = copy_i32_vec(&hv, y);
                proof {
                    assert(hv@.map(|_i: int, q: Vec<i32>| q@)[y as int] == hv@[y as int]@);
                }
                let c = cube.extend_vars(ext);
                out.push(c);
                proof {
                    assert(out@[plen + y].0@ == cube.0@ + exts[y as int]);
                }
            }
            proof {
                assert(exts.subrange(0, t as int) == exts);
                assert forall|i: int| plen <= i < out@.len() implies (#[trigger] out@[i]).0@
                    == cube.0@ + exts[i - plen] by {
                    assert(out@[plen + (i - plen)].0@ == cube.0@ + exts[i - plen]);
                }
                assert(out@.map(|_i: int, c: Cube| c.0@) =~~= prev + extended_cubes(
                    exts,
                    cube.0@,
                ));
                assert(out@.map(|_i: int, c: Cube| c.0@) == node_candidates(
                    gsels.take(x + 1),
                    cube.0@,
                ));
            }
        } else {
            proof {
                assert(!selection_ok(gsels[x as int], cube.0@)) by {
                    assert(!(forall|y: int|
                        0 <= y < sel@.len() ==> !mentions_var(
                            cube.0@,
                            (#[trigger] sel@[y]) as int,
                        )));
                }
                assert(out@.map(|_i: int, c: Cube| c.0@) =~= node_candidates(
                    gsels.take(x + 1),
                    cube.0@,
                ));
            }
        }
    }
    proof {
        assert(gsels.take(n as int) == gsels);
    }
    (d, out)
}


} // verus!
