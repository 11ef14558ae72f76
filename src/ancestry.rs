use crate::record::ProcessRecord;
use crate::tree::{
    child_lists, children_upto, forest, hierarchy, lemma_hierarchy_bounds,
    root_list, roots_upto, subtree, unique_pids,
};
use vstd::prelude::*;

verus! {

/// Index of the record that `i` names as its parent, or -1 when `i` names
/// none or names one that is not in the set.
pub open spec fn parent_index(recs: Seq<ProcessRecord>, i: int) -> int {
    match recs[i].parent {
        Some(p) => if exists|j: int| 0 <= j < recs.len() && #[trigger] recs[j].pid == p {
            choose|j: int| 0 <= j < recs.len() && #[trigger] recs[j].pid == p
        } else {
            -1
        },
        None => -1,
    }
}

/// Record `i` lies `k` parent links below a record that reports no parent,
/// every link leading to a record of the same set.
pub open spec fn reaches_root(recs: Seq<ProcessRecord>, i: int, k: nat) -> bool
    decreases k,
{
    &&& 0 <= i < recs.len()
    &&& if k == 0 {
        recs[i].parent is None
    } else {
        reaches_root(recs, parent_index(recs, i), (k - 1) as nat)
    }
}

/// Record `i` is reachable from a declared root by parent links within the
/// set. (A chain of distinct records is shorter than the set.)
pub open spec fn reachable(recs: Seq<ProcessRecord>, i: int) -> bool {
    exists|k: nat| k < recs.len() && #[trigger] reaches_root(recs, i, k)
}

/// The indices of the reachable records.
pub open spec fn reachable_set(recs: Seq<ProcessRecord>) -> Set<int> {
    Set::new(|i: int| 0 <= i < recs.len() && reachable(recs, i))
}

/// Record `x` lies `m` parent links below record `c`.
spec fn below(recs: Seq<ProcessRecord>, x: int, m: nat, c: int) -> bool
    decreases m,
{
    if m == 0 {
        x == c
    } else {
        0 <= x < recs.len() && below(recs, parent_index(recs, x), (m - 1) as nat, c)
    }
}

spec fn below_one_of(recs: Seq<ProcessRecord>, x: int, m: nat, cs: Seq<usize>) -> bool {
    exists|t: int| 0 <= t < cs.len() && #[trigger] below(recs, x, m, cs[t] as int)
}

spec fn increasing(cs: Seq<usize>) -> bool {
    forall|a: int, b: int| 0 <= a < b < cs.len() ==> cs[a] < cs[b]
}

spec fn well_keyed(recs: Seq<ProcessRecord>) -> bool {
    unique_pids(recs) && recs.len() <= usize::MAX
}

proof fn lemma_parent_index(recs: Seq<ProcessRecord>, x: int, j: int)
    requires
        unique_pids(recs),
        0 <= x < recs.len(),
        0 <= j < recs.len(),
        recs[x].parent == Some(recs[j].pid),
    ensures
        parent_index(recs, x) == j,
{
    let p = recs[j].pid;
    assert(exists|k: int| 0 <= k < recs.len() && #[trigger] recs[k].pid == p);
    let c = choose|k: int| 0 <= k < recs.len() && #[trigger] recs[k].pid == p;
    if c != j {
        assert(recs[c].pid != recs[j].pid);
    }
}

proof fn lemma_parent_index_names_parent(recs: Seq<ProcessRecord>, x: int)
    requires
        0 <= x < recs.len(),
        0 <= parent_index(recs, x),
    ensures
        parent_index(recs, x) < recs.len(),
        recs[x].parent == Some(recs[parent_index(recs, x)].pid),
{
}

/// The distance to a root is unique.
proof fn lemma_root_distance_unique(recs: Seq<ProcessRecord>, x: int, e1: nat, e2: nat)
    requires
        reaches_root(recs, x, e1),
        reaches_root(recs, x, e2),
    ensures
        e1 == e2,
    decreases e1,
{
    if e1 > 0 && e2 > 0 {
        lemma_root_distance_unique(recs, parent_index(recs, x), (e1 - 1) as nat, (e2 - 1) as nat);
    } else if e1 > 0 {
        lemma_parent_of_root(recs, x, (e1 - 1) as nat);
    } else if e2 > 0 {
        lemma_parent_of_root(recs, x, (e2 - 1) as nat);
    }
}

proof fn lemma_parent_of_root(recs: Seq<ProcessRecord>, x: int, k: nat)
    requires
        0 <= x < recs.len(),
        recs[x].parent is None,
    ensures
        !reaches_root(recs, parent_index(recs, x), k),
{
}

/// Following `m` parent links leads to one record only.
proof fn lemma_below_unique(recs: Seq<ProcessRecord>, x: int, m: nat, c1: int, c2: int)
    requires
        below(recs, x, m, c1),
        below(recs, x, m, c2),
    ensures
        c1 == c2,
    decreases m,
{
    if m > 0 {
        lemma_below_unique(recs, parent_index(recs, x), (m - 1) as nat, c1, c2);
    }
}

proof fn lemma_below_extend(recs: Seq<ProcessRecord>, x: int, m: nat, c: int, i: int)
    requires
        unique_pids(recs),
        0 <= x < recs.len(),
        0 <= i < recs.len(),
        0 <= c < recs.len(),
        below(recs, x, m, c),
        recs[c].parent == Some(recs[i].pid),
    ensures
        below(recs, x, m + 1, i),
    decreases m,
{
    if m == 0 {
        lemma_parent_index(recs, c, i);
        assert(below(recs, i, 0, i));
    } else {
        let j = parent_index(recs, x);
        if 0 <= j < recs.len() {
            lemma_below_extend(recs, j, (m - 1) as nat, c, i);
        } else {
            assert(below(recs, j, (m - 1) as nat, c));
            lemma_below_bounds(recs, j, (m - 1) as nat, c);
        }
    }
}

proof fn lemma_below_bounds(recs: Seq<ProcessRecord>, x: int, m: nat, c: int)
    requires
        below(recs, x, m, c),
        0 <= c < recs.len(),
    ensures
        0 <= x < recs.len(),
{
}

proof fn lemma_children_upto_members(recs: Seq<ProcessRecord>, i: int, m: int)
    requires
        0 <= m <= recs.len() <= usize::MAX,
    ensures
        increasing(children_upto(recs, i, m)),
        forall|t: int|
            0 <= t < children_upto(recs, i, m).len() ==> {
                let c = #[trigger] children_upto(recs, i, m)[t] as int;
                0 <= c < m && recs[c].parent == Some(recs[i].pid)
            },
        forall|c: int|
            0 <= c < m && recs[c].parent == Some(recs[i].pid) ==> exists|t: int|
                0 <= t < children_upto(recs, i, m).len() && #[trigger] children_upto(recs, i, m)[t]
                    == c,
    decreases m,
{
    if m > 0 {
        lemma_children_upto_members(recs, i, m - 1);
        let prev = children_upto(recs, i, m - 1);
        let cur = children_upto(recs, i, m);
        if recs[m - 1].parent == Some(recs[i].pid) {
            assert(cur == prev.push((m - 1) as usize));
            assert forall|c: int| 0 <= c < m && recs[c].parent == Some(recs[i].pid) implies exists|
                t: int,
            | 0 <= t < cur.len() && #[trigger] cur[t] == c by {
                if c == m - 1 {
                    assert(cur[prev.len() as int] == c);
                } else {
                    let t = choose|t: int| 0 <= t < prev.len() && #[trigger] prev[t] == c;
                    assert(cur[t] == c);
                }
            }
        } else {
            assert forall|c: int| 0 <= c < m && recs[c].parent == Some(recs[i].pid) implies exists|
                t: int,
            | 0 <= t < cur.len() && #[trigger] cur[t] == c by {
                let t = choose|t: int| 0 <= t < prev.len() && #[trigger] prev[t] == c;
            }
        }
    }
}

proof fn lemma_roots_upto_members(recs: Seq<ProcessRecord>, m: int)
    requires
        0 <= m <= recs.len() <= usize::MAX,
    ensures
        increasing(roots_upto(recs, m)),
        forall|t: int|
            0 <= t < roots_upto(recs, m).len() ==> {
                let c = #[trigger] roots_upto(recs, m)[t] as int;
                0 <= c < m && recs[c].parent is None
            },
        forall|c: int|
            0 <= c < m && recs[c].parent is None ==> exists|t: int|
                0 <= t < roots_upto(recs, m).len() && #[trigger] roots_upto(recs, m)[t] == c,
    decreases m,
{
    if m > 0 {
        lemma_roots_upto_members(recs, m - 1);
        let prev = roots_upto(recs, m - 1);
        let cur = roots_upto(recs, m);
        if recs[m - 1].parent is None {
            assert(cur == prev.push((m - 1) as usize));
            assert forall|c: int| 0 <= c < m && recs[c].parent is None implies exists|t: int|
                0 <= t < cur.len() && #[trigger] cur[t] == c by {
                if c == m - 1 {
                    assert(cur[prev.len() as int] == c);
                } else {
                    let t = choose|t: int| 0 <= t < prev.len() && #[trigger] prev[t] == c;
                    assert(cur[t] == c);
                }
            }
        } else {
            assert forall|c: int| 0 <= c < m && recs[c].parent is None implies exists|t: int|
                0 <= t < cur.len() && #[trigger] cur[t] == c by {
                let t = choose|t: int| 0 <= t < prev.len() && #[trigger] prev[t] == c;
            }
        }
    }
}

proof fn lemma_subtree_facts(recs: Seq<ProcessRecord>, i: int, d: nat)
    requires
        well_keyed(recs),
        reaches_root(recs, i, d),
    ensures
        forall|k: int|
            0 <= k < subtree(child_lists(recs), i, d).len() ==> {
                let (x, e) = #[trigger] subtree(child_lists(recs), i, d)[k];
                d <= e && reaches_root(recs, x, e as nat) && below(recs, x, (e - d) as nat, i)
            },
        forall|a: int, b: int|
            0 <= a < b < subtree(child_lists(recs), i, d).len() ==> (#[trigger] subtree(
                child_lists(recs),
                i,
                d,
            )[a]).0 != (#[trigger] subtree(child_lists(recs), i, d)[b]).0,
    decreases recs.len() - d, 0int,
{
    let kids = child_lists(recs);
    let n = recs.len();
    if d < n {
        let cs = kids[i];
        lemma_children_upto_members(recs, i, n as int);
        assert(cs == children_upto(recs, i, n as int));
        assert forall|t: int| 0 <= t < cs.len() implies 0 <= #[trigger] cs[t] < n && reaches_root(
            recs,
            cs[t] as int,
            d + 1,
        ) by {
            lemma_parent_index(recs, cs[t] as int, i);
        }
        lemma_forest_facts(recs, cs, d + 1);
        let a = seq![(i, d as int)];
        let b = forest(kids, cs, d + 1);
        let st = subtree(kids, i, d);
        assert(st == a + b);
        assert forall|k: int| 0 <= k < st.len() implies {
            let (x, e) = #[trigger] st[k];
            d <= e && reaches_root(recs, x, e as nat) && below(recs, x, (e - d) as nat, i)
        } by {
            if k == 0 {
                assert(st[k] == (i, d as int));
            } else {
                assert(st[k] == b[k - 1]);
                let (x, e) = b[k - 1];
                let t = choose|t: int|
                    0 <= t < cs.len() && #[trigger] below(recs, x, (e - (d + 1)) as nat, cs[t] as int);
                lemma_below_extend(recs, x, (e - (d + 1)) as nat, cs[t] as int, i);
                assert((e - (d + 1)) as nat + 1 == (e - d) as nat);
            }
        }
        assert forall|p: int, q: int| 0 <= p < q < st.len() implies (#[trigger] st[p]).0 != (
        #[trigger] st[q]).0 by {
            assert(st[q] == b[q - 1]);
            if p == 0 {
                let (x, e) = b[q - 1];
                if x == i {
                    lemma_root_distance_unique(recs, i, d, e as nat);
                }
            } else {
                assert(st[p] == b[p - 1]);
            }
        }
    }
}

proof fn lemma_forest_facts(recs: Seq<ProcessRecord>, cs: Seq<usize>, d: nat)
    requires
        well_keyed(recs),
        increasing(cs),
        forall|t: int| 0 <= t < cs.len() ==> 0 <= #[trigger] cs[t] < recs.len() && reaches_root(recs, cs[t] as int, d),
    ensures
        forall|k: int|
            0 <= k < forest(child_lists(recs), cs, d).len() ==> {
                let (x, e) = #[trigger] forest(child_lists(recs), cs, d)[k];
                d <= e && reaches_root(recs, x, e as nat) && below_one_of(recs, x, (e - d) as nat, cs)
            },
        forall|a: int, b: int|
            0 <= a < b < forest(child_lists(recs), cs, d).len() ==> (#[trigger] forest(
                child_lists(recs),
                cs,
                d,
            )[a]).0 != (#[trigger] forest(child_lists(recs), cs, d)[b]).0,
    decreases recs.len() - d, cs.len(),
{
    let kids = child_lists(recs);
    if d < recs.len() && cs.len() > 0 {
        let rest = cs.drop_first();
        lemma_subtree_facts(recs, cs[0] as int, d);
        assert forall|t: int| 0 <= t < rest.len() implies 0 <= #[trigger] rest[t] < recs.len()
            && reaches_root(recs, rest[t] as int, d) by {
            assert(rest[t] == cs[t + 1]);
        }
        lemma_forest_facts(recs, rest, d);
        let a = subtree(kids, cs[0] as int, d);
        let b = forest(kids, rest, d);
        let f = forest(kids, cs, d);
        assert(f == a + b);
        assert forall|k: int| 0 <= k < f.len() implies {
            let (x, e) = #[trigger] f[k];
            d <= e && reaches_root(recs, x, e as nat) && below_one_of(recs, x, (e - d) as nat, cs)
        } by {
            if k < a.len() {
                assert(f[k] == a[k]);
                let (x, e) = a[k];
                assert(below(recs, x, (e - d) as nat, cs[0] as int));
            } else {
                assert(f[k] == b[k - a.len()]);
                let (x, e) = b[k - a.len()];
                let t = choose|t: int|
                    0 <= t < rest.len() && #[trigger] below(recs, x, (e - d) as nat, rest[t] as int);
                assert(rest[t] == cs[t + 1]);
                assert(below(recs, x, (e - d) as nat, cs[t + 1] as int));
            }
        }
        assert forall|p: int, q: int| 0 <= p < q < f.len() implies (#[trigger] f[p]).0 != (
        #[trigger] f[q]).0 by {
            if q < a.len() {
                assert(f[p] == a[p] && f[q] == a[q]);
            } else if p >= a.len() {
                assert(f[p] == b[p - a.len()] && f[q] == b[q - a.len()]);
            } else {
                assert(f[p] == a[p] && f[q] == b[q - a.len()]);
                let (x, e1) = a[p];
                let (y, e2) = b[q - a.len()];
                if x == y {
                    lemma_root_distance_unique(recs, x, e1 as nat, e2 as nat);
                    let t = choose|t: int|
                        0 <= t < rest.len() && #[trigger] below(recs, y, (e2 - d) as nat, rest[t] as int);
                    assert(rest[t] == cs[t + 1]);
                    lemma_below_unique(recs, x, (e1 - d) as nat, cs[0] as int, cs[t + 1] as int);
                }
            }
        }
    }
}

proof fn lemma_member_starts_subtree(kids: Seq<Seq<usize>>, cs: Seq<usize>, d: nat, t: int)
    requires
        0 <= t < cs.len(),
        d < kids.len(),
    ensures
        forest(kids, cs, d).contains((cs[t] as int, d as int)),
    decreases t,
{
    let a = subtree(kids, cs[0] as int, d);
    let b = forest(kids, cs.drop_first(), d);
    assert(forest(kids, cs, d) == a + b);
    if t == 0 {
        assert(a[0] == (cs[0] as int, d as int));
        assert((a + b)[0] == a[0]);
    } else {
        lemma_member_starts_subtree(kids, cs.drop_first(), d, t - 1);
        assert(cs.drop_first()[t - 1] == cs[t]);
        let k = choose|k: int| 0 <= k < b.len() && b[k] == (cs[t] as int, d as int);
        assert((a + b)[a.len() + k] == b[k]);
    }
}

proof fn lemma_subtree_closed(kids: Seq<Seq<usize>>, i: int, d: nat, j: int, e: int, c: int)
    requires
        subtree(kids, i, d).contains((j, e)),
        e + 1 < kids.len(),
        exists|t: int| 0 <= t < kids[j].len() && kids[j][t] as int == c,
    ensures
        subtree(kids, i, d).contains((c, e + 1)),
    decreases kids.len() - d, 0int,
{
    let a = seq![(i, d as int)];
    let b = forest(kids, kids[i], d + 1);
    let st = subtree(kids, i, d);
    assert(st == a + b);
    let k = choose|k: int| 0 <= k < st.len() && st[k] == (j, e);
    if k == 0 {
        let t = choose|t: int| 0 <= t < kids[j].len() && kids[j][t] as int == c;
        lemma_member_starts_subtree(kids, kids[i], d + 1, t);
    } else {
        assert(st[k] == b[k - 1]);
        assert(b.contains((j, e)));
        lemma_forest_closed(kids, kids[i], d + 1, j, e, c);
    }
    let m = choose|m: int| 0 <= m < b.len() && b[m] == (c, e + 1);
    assert(st[m + 1] == b[m]);
}

proof fn lemma_forest_closed(kids: Seq<Seq<usize>>, cs: Seq<usize>, d: nat, j: int, e: int, c: int)
    requires
        forest(kids, cs, d).contains((j, e)),
        e + 1 < kids.len(),
        exists|t: int| 0 <= t < kids[j].len() && kids[j][t] as int == c,
    ensures
        forest(kids, cs, d).contains((c, e + 1)),
    decreases kids.len() - d, cs.len(),
{
    let f = forest(kids, cs, d);
    let k = choose|k: int| 0 <= k < f.len() && f[k] == (j, e);
    let a = subtree(kids, cs[0] as int, d);
    let b = forest(kids, cs.drop_first(), d);
    assert(f == a + b);
    if k < a.len() {
        assert(a[k] == f[k]);
        lemma_subtree_closed(kids, cs[0] as int, d, j, e, c);
        let m = choose|m: int| 0 <= m < a.len() && a[m] == (c, e + 1);
        assert(f[m] == a[m]);
    } else {
        assert(b[k - a.len()] == f[k]);
        lemma_forest_closed(kids, cs.drop_first(), d, j, e, c);
        let m = choose|m: int| 0 <= m < b.len() && b[m] == (c, e + 1);
        assert(f[a.len() + m] == b[m]);
    }
}

/// A record `e` links below a root, with `e` short of the set's size, is
/// listed at depth `e`.
proof fn lemma_reachable_listed(recs: Seq<ProcessRecord>, i: int, e: nat)
    requires
        well_keyed(recs),
        reaches_root(recs, i, e),
        e < recs.len(),
    ensures
        hierarchy(recs).contains((i, e as int)),
    decreases e,
{
    let n = recs.len() as int;
    let kids = child_lists(recs);
    if e == 0 {
        lemma_roots_upto_members(recs, n);
        let t = choose|t: int| 0 <= t < root_list(recs).len() && #[trigger] root_list(recs)[t] == i;
        lemma_member_starts_subtree(kids, root_list(recs), 0, t);
    } else {
        let j = parent_index(recs, i);
        assert(reaches_root(recs, j, (e - 1) as nat));
        lemma_reachable_listed(recs, j, (e - 1) as nat);
        lemma_parent_index_names_parent(recs, i);
        lemma_children_upto_members(recs, j, n);
        assert(kids[j] == children_upto(recs, j, n));
        let t = choose|t: int| 0 <= t < kids[j].len() && #[trigger] kids[j][t] == i;
        lemma_forest_closed(kids, root_list(recs), 0, j, e - 1, i);
    }
}

proof fn lemma_hierarchy_facts(recs: Seq<ProcessRecord>)
    requires
        well_keyed(recs),
    ensures
        forall|k: int|
            0 <= k < hierarchy(recs).len() ==> {
                let (x, e) = #[trigger] hierarchy(recs)[k];
                0 <= e < recs.len() && reaches_root(recs, x, e as nat)
            },
        forall|a: int, b: int|
            0 <= a < b < hierarchy(recs).len() ==> (#[trigger] hierarchy(recs)[a]).0 != (
            #[trigger] hierarchy(recs)[b]).0,
{
    let n = recs.len() as int;
    lemma_roots_upto_members(recs, n);
    let roots = root_list(recs);
    assert forall|t: int| 0 <= t < roots.len() implies 0 <= #[trigger] roots[t] < recs.len()
        && reaches_root(recs, roots[t] as int, 0) by {}
    lemma_forest_facts(recs, roots, 0);
    lemma_hierarchy_bounds(recs);
}

/// The hierarchical view lists exactly the records reachable from a
/// declared root through parent links inside the set, each once: records
/// whose chain of parents leaves the set (an orphan, a cycle) are absent,
/// and the number of entries is the number of reachable records.
pub proof fn lemma_hierarchy_lists_reachable(recs: Seq<ProcessRecord>)
    requires
        unique_pids(recs),
        recs.len() <= usize::MAX,
    ensures
        forall|k: int| 0 <= k < hierarchy(recs).len() ==> reachable(recs, #[trigger] hierarchy(recs)[k].0),
        forall|i: int|
            0 <= i < recs.len() && reachable(recs, i) ==> exists|k: int|
                0 <= k < hierarchy(recs).len() && #[trigger] hierarchy(recs)[k].0 == i,
        forall|a: int, b: int|
            0 <= a < b < hierarchy(recs).len() ==> (#[trigger] hierarchy(recs)[a]).0 != (
            #[trigger] hierarchy(recs)[b]).0,
        hierarchy(recs).len() == reachable_set(recs).len(),
{
    let h = hierarchy(recs);
    lemma_hierarchy_facts(recs);
    lemma_hierarchy_bounds(recs);
    assert forall|k: int| 0 <= k < h.len() implies reachable(recs, #[trigger] h[k].0) by {
        let (x, e) = h[k];
        assert(reaches_root(recs, x, e as nat));
    }
    assert forall|i: int| 0 <= i < recs.len() && reachable(recs, i) implies exists|k: int|
        0 <= k < h.len() && #[trigger] h[k].0 == i by {
        let e = choose|e: nat| e < recs.len() && #[trigger] reaches_root(recs, i, e);
        lemma_reachable_listed(recs, i, e);
        let k = choose|k: int| 0 <= k < h.len() && h[k] == (i, e as int);
        assert(h[k].0 == i);
    }
    let ids = Seq::new(h.len(), |k: int| h[k].0);
    assert(ids.no_duplicates()) by {
        assert forall|a: int, b: int| 0 <= a < ids.len() && 0 <= b < ids.len() && a != b implies ids[a] != ids[b] by {
            if a < b {
                assert(h[a].0 != h[b].0);
            } else {
                assert(h[b].0 != h[a].0);
            }
        }
    }
    ids.unique_seq_to_set();
    assert(ids.to_set() =~= reachable_set(recs)) by {
        assert forall|i: int| ids.to_set().contains(i) implies reachable_set(recs).contains(i) by {
            let k = choose|k: int| 0 <= k < ids.len() && ids[k] == i;
            assert(h[k].0 == i);
        }
        assert forall|i: int| reachable_set(recs).contains(i) implies ids.to_set().contains(i) by {
            let k = choose|k: int| 0 <= k < h.len() && #[trigger] h[k].0 == i;
            assert(ids[k] == i);
        }
    }
}

/// Each entry's depth is its number of parent links to a root: roots have
/// depth 0, and every other entry's parent is listed one level higher.
pub proof fn lemma_hierarchy_depths(recs: Seq<ProcessRecord>)
    requires
        unique_pids(recs),
        recs.len() <= usize::MAX,
    ensures
        forall|k: int|
            0 <= k < hierarchy(recs).len() ==> reaches_root(
                recs,
                (#[trigger] hierarchy(recs)[k]).0,
                hierarchy(recs)[k].1 as nat,
            ),
        forall|k: int|
            0 <= k < hierarchy(recs).len() ==> ((#[trigger] hierarchy(recs)[k]).1 == 0 <==> recs[hierarchy(recs)[k].0].parent is None),
        forall|k: int|
            0 <= k < hierarchy(recs).len() && (#[trigger] hierarchy(recs)[k]).1 > 0 ==> exists|m: int|
                0 <= m < hierarchy(recs).len() && recs[hierarchy(recs)[k].0].parent == Some(
                    recs[(#[trigger] hierarchy(recs)[m]).0].pid,
                ) && hierarchy(recs)[k].1 == hierarchy(recs)[m].1 + 1,
{
    let h = hierarchy(recs);
    lemma_hierarchy_facts(recs);
    assert forall|k: int| 0 <= k < h.len() implies ((#[trigger] h[k]).1 == 0 <==> recs[h[k].0].parent is None) by {
        let (x, e) = h[k];
        if e > 0 {
            lemma_parent_of_root_excluded(recs, x, e as nat);
        }
    }
    assert forall|k: int| 0 <= k < h.len() && (#[trigger] h[k]).1 > 0 implies exists|m: int|
        0 <= m < h.len() && recs[h[k].0].parent == Some(recs[(#[trigger] h[m]).0].pid) && h[k].1
            == h[m].1 + 1 by {
        let (x, e) = h[k];
        let j = parent_index(recs, x);
        assert(reaches_root(recs, j, (e - 1) as nat));
        lemma_parent_index_names_parent(recs, x);
        lemma_reachable_listed(recs, j, (e - 1) as nat);
        let m = choose|m: int| 0 <= m < h.len() && h[m] == (j, e - 1);
        assert(recs[h[k].0].parent == Some(recs[h[m].0].pid));
    }
}

proof fn lemma_parent_of_root_excluded(recs: Seq<ProcessRecord>, x: int, e: nat)
    requires
        e > 0,
        reaches_root(recs, x, e),
    ensures
        recs[x].parent is Some,
{
    assert(reaches_root(recs, parent_index(recs, x), (e - 1) as nat));
}

} // verus!
