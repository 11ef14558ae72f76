use crate::record::ProcessRecord;
use std::collections::HashMap;
use vstd::prelude::*;

verus! {

broadcast use vstd::std_specs::hash::group_hash_axioms;

/// No two records share a process id.
pub open spec fn unique_pids(recs: Seq<ProcessRecord>) -> bool {
    forall|i: int, j: int|
        0 <= i < recs.len() && 0 <= j < recs.len() && i != j ==> #[trigger] recs[i].pid
            != #[trigger] recs[j].pid
}

/// Indices below `m`, ascending, of the records whose parent is record `i`.
pub open spec fn children_upto(recs: Seq<ProcessRecord>, i: int, m: int) -> Seq<usize>
    decreases m,
{
    if m <= 0 {
        seq![]
    } else if recs[m - 1].parent == Some(recs[i].pid) {
        children_upto(recs, i, m - 1).push((m - 1) as usize)
    } else {
        children_upto(recs, i, m - 1)
    }
}

/// Indices below `m`, ascending, of the records that report no parent.
pub open spec fn roots_upto(recs: Seq<ProcessRecord>, m: int) -> Seq<usize>
    decreases m,
{
    if m <= 0 {
        seq![]
    } else if recs[m - 1].parent is None {
        roots_upto(recs, m - 1).push((m - 1) as usize)
    } else {
        roots_upto(recs, m - 1)
    }
}

/// For each record, the indices of its children in input order.
pub open spec fn child_lists(recs: Seq<ProcessRecord>) -> Seq<Seq<usize>> {
    Seq::new(recs.len(), |i: int| children_upto(recs, i, recs.len() as int))
}

pub open spec fn root_list(recs: Seq<ProcessRecord>) -> Seq<usize> {
    roots_upto(recs, recs.len() as int)
}

/// Pre-order of the subtree at node `i` placed at depth `d`: the node, then
/// each child's subtree in order. Nothing is placed at a depth of
/// `kids.len()` or more, which no chain of distinct nodes can reach.
pub open spec fn subtree(kids: Seq<Seq<usize>>, i: int, d: nat) -> Seq<(int, int)>
    decreases kids.len() - d, 0int,
{
    if d >= kids.len() {
        seq![]
    } else {
        seq![(i, d as int)] + forest(kids, kids[i], d + 1)
    }
}

/// Pre-order of the subtrees at the nodes of `cs`, one after another, at depth `d`.
pub open spec fn forest(kids: Seq<Seq<usize>>, cs: Seq<usize>, d: nat) -> Seq<(int, int)>
    decreases kids.len() - d, cs.len(),
{
    if d >= kids.len() || cs.len() == 0 {
        seq![]
    } else {
        subtree(kids, cs[0] as int, d) + forest(kids, cs.drop_first(), d)
    }
}

/// The hierarchical view of a snapshot: (record index, depth) pairs in
/// tree pre-order, roots in input order, children in input order.
pub open spec fn hierarchy(recs: Seq<ProcessRecord>) -> Seq<(int, int)> {
    forest(child_lists(recs), root_list(recs), 0)
}

/// Pairs up two parallel sequences.
pub open spec fn paired(ids: Seq<usize>, depths: Seq<usize>) -> Seq<(int, int)> {
    Seq::new(ids.len(), |k: int| (ids[k] as int, depths[k] as int))
}

/// The parent/child forest of a snapshot, as indices into it.
pub struct ProcessTree {
    roots: Vec<usize>,
    children: Vec<Vec<usize>>,
}

impl ProcessTree {
    pub closed spec fn kids(&self) -> Seq<Seq<usize>> {
        Seq::new(self.children@.len(), |i: int| self.children@[i]@)
    }

    pub closed spec fn wf(&self) -> bool {
        &&& forall|k: int| 0 <= k < self.roots@.len() ==> self.roots@[k] < self.children@.len()
        &&& forall|i: int, k: int|
            0 <= i < self.children@.len() && 0 <= k < self.children@[i]@.len()
                ==> self.children@[i]@[k] < self.children@.len()
    }

    /// The tree's pre-order with depths.
    pub closed spec fn preorder(&self) -> Seq<(int, int)> {
        forest(self.kids(), self.roots@, 0)
    }

    spec fn frame_list(&self, owner: int) -> Seq<usize> {
        if owner == self.children@.len() {
            self.roots@
        } else {
            self.children@[owner]@
        }
    }

    /// What remains to be emitted for a stack of (list owner, position, depth)
    /// frames, the top frame first.
    spec fn pending(&self, stack: Seq<(usize, usize, usize)>) -> Seq<(int, int)>
        decreases stack.len(),
    {
        if stack.len() == 0 {
            seq![]
        } else {
            let (owner, pos, depth) = stack.last();
            forest(self.kids(), self.frame_list(owner as int).skip(pos as int), depth as nat)
                + self.pending(stack.drop_last())
        }
    }

    /// Reconstructs the forest: a record whose parent is absent is a root;
    /// one whose parent is present hangs below it, in input order.
    pub fn build(records: &Vec<ProcessRecord>) -> (r: ProcessTree)
        requires
            unique_pids(records@),
        ensures
            r.wf(),
            r.preorder() == hierarchy(records@),
    {
        let n = records.len();
        let mut index_of: HashMap<u32, usize> = HashMap::new();
        let mut i: usize = 0;
        while i < n
            invariant
                n == records.len(),
                i <= n,
                forall|p: u32|
                    index_of@.contains_key(p) ==> index_of@[p] < i && records@[index_of@[p] as int].pid
                        == p,
                forall|j: int| 0 <= j < i ==> index_of@.contains_key(#[trigger] records@[j].pid),
            decreases n - i,
        {
            index_of.insert(records[i].pid, i);
            i = i + 1;
        }
        let mut children: Vec<Vec<usize>> = Vec::new();
        while children.len() < n
            invariant
                children.len() <= n,
                forall|k: int| 0 <= k < children.len() ==> children@[k]@ == Seq::<usize>::empty(),
            decreases n - children.len(),
        {
            children.push(Vec::new());
        }
        let mut roots: Vec<usize> = Vec::new();
        let mut j: usize = 0;
        while j < n
            invariant
                n == records.len(),
                j <= n,
                unique_pids(records@),
                children.len() == n,
                roots@ == roots_upto(records@, j as int),
                forall|k: int|
                    0 <= k < n ==> #[trigger] children@[k]@ == children_upto(records@, k, j as int),
                forall|p: u32|
                    index_of@.contains_key(p) ==> index_of@[p] < n && records@[index_of@[p] as int].pid
                        == p,
                forall|k: int| 0 <= k < n ==> index_of@.contains_key(#[trigger] records@[k].pid),
            decreases n - j,
        {
            match records[j].parent {
                None => {
                    roots.push(j);
                },
                Some(p) => {
                    match index_of.get(&p) {
                        Some(owner) => {
                            let o: usize = *owner;
                            let ghost before = children@;
                            let mut list: Vec<usize> = Vec::new();
                            std::mem::swap(&mut list, &mut children[o]);
                            list.push(j);
                            std::mem::swap(&mut list, &mut children[o]);
                            assert forall|k: int| 0 <= k < n implies #[trigger] children@[k]@
                                == children_upto(records@, k, j + 1) by {
                                if k != o {
                                    assert(records@[k].pid != records@[o as int].pid);
                                    assert(children@[k] == before[k]);
                                }
                            }
                        },
                        None => {
                            assert forall|k: int| 0 <= k < n implies #[trigger] children@[k]@
                                == children_upto(records@, k, j + 1) by {
                                assert(index_of@.contains_key(records@[k].pid));
                            }
                        },
                    }
                },
            }
            j = j + 1;
        }
        let r = ProcessTree { roots, children };
        proof {
            assert(r.kids() =~= child_lists(records@));
            lemma_children_bounded(records@);
            lemma_roots_bounded(records@, n as int);
        }
        r
    }

    /// The pre-order of the forest: record indices and, beside each, its
    /// number of ancestors.
    pub fn flattened(&self) -> (r: (Vec<usize>, Vec<usize>))
        requires
            self.wf(),
        ensures
            r.0.len() == r.1.len(),
            paired(r.0@, r.1@) == self.preorder(),
    {
        let n = self.children.len();
        let mut ids: Vec<usize> = Vec::new();
        let mut depths: Vec<usize> = Vec::new();
        let mut stack: Vec<(usize, usize, usize)> = Vec::new();
        stack.push((n, 0, 0));
        proof {
            assert(self.frame_list(n as int).skip(0) =~= self.roots@);
            assert(stack@.drop_last() =~= Seq::<(usize, usize, usize)>::empty());
            assert(self.pending(stack@.drop_last()) == Seq::<(int, int)>::empty());
            assert(stack@.last() == (n, 0usize, 0usize));
            assert(self.pending(stack@) =~= self.preorder());
            assert(paired(ids@, depths@) =~= Seq::<(int, int)>::empty());
            assert(paired(ids@, depths@) + self.pending(stack@) =~= self.preorder());
        }
        while stack.len() > 0
            invariant
                n == self.children@.len(),
                self.wf(),
                ids.len() == depths.len(),
                paired(ids@, depths@) + self.pending(stack@) == self.preorder(),
                forall|k: int|
                    0 <= k < stack.len() ==> {
                        let (owner, pos, depth) = #[trigger] stack@[k];
                        &&& owner <= n
                        &&& pos <= self.frame_list(owner as int).len()
                        &&& depth <= n
                    },
            decreases self.pending(stack@).len(), stack.len(),
        {
            let ghost before_pending = self.pending(stack@);
            let (owner, pos, depth) = stack.pop().unwrap();
            let ghost rest = stack@;
            assert(before_pending == forest(
                self.kids(),
                self.frame_list(owner as int).skip(pos as int),
                depth as nat,
            ) + self.pending(rest));
            let list: &Vec<usize> = if owner == n {
                &self.roots
            } else {
                &self.children[owner]
            };
            assert(list@ == self.frame_list(owner as int));
            if pos < list.len() && depth < n {
                let node = list[pos];
                let ghost l = list@;
                proof {
                    assert(self.kids()[node as int] == self.children@[node as int]@);
                    assert(l.skip(pos as int).drop_first() =~= l.skip(pos + 1));
                    assert(l.skip(pos as int)[0] == node);
                    assert(self.frame_list(node as int).skip(0) =~= self.kids()[node as int]);
                }
                let ghost before_pairs = paired(ids@, depths@);
                ids.push(node);
                depths.push(depth);
                stack.push((owner, pos + 1, depth));
                stack.push((node, 0, depth + 1));
                proof {
                    assert(paired(ids@, depths@) =~= before_pairs.push((node as int, depth as int)));
                    let s1 = stack@.drop_last();
                    assert(s1.drop_last() =~= rest);
                    assert(s1.last() == (owner, (pos + 1) as usize, depth));
                    assert(stack@.last() == (node, 0usize, (depth + 1) as usize));
                    assert(self.frame_list(owner as int) == l);
                    assert(self.pending(s1) == forest(self.kids(), l.skip(pos + 1), depth as nat)
                        + self.pending(rest));
                    assert(self.pending(stack@) == forest(
                        self.kids(),
                        self.frame_list(node as int).skip(0),
                        (depth + 1) as nat,
                    ) + self.pending(s1));
                    assert(self.pending(stack@) == forest(self.kids(), self.kids()[node as int], (depth + 1) as nat)
                        + (forest(self.kids(), l.skip(pos + 1), depth as nat) + self.pending(rest)));
                    let cs = l.skip(pos as int);
                    assert(self.kids().len() == n);
                    assert(forest(self.kids(), cs, depth as nat) == subtree(
                        self.kids(),
                        node as int,
                        depth as nat,
                    ) + forest(self.kids(), l.skip(pos + 1), depth as nat));
                    assert(subtree(self.kids(), node as int, depth as nat) == seq![
                        (node as int, depth as int),
                    ] + forest(self.kids(), self.kids()[node as int], (depth + 1) as nat));
                    assert(before_pending =~= seq![(node as int, depth as int)] + self.pending(stack@));
                    assert(paired(ids@, depths@) + self.pending(stack@) =~= before_pairs + before_pending);
                }
            } else {
                proof {
                    assert(forest(self.kids(), list@.skip(pos as int), depth as nat) =~= seq![]);
                    assert(paired(ids@, depths@) + self.pending(stack@) =~= paired(ids@, depths@)
                        + before_pending);
                }
            }
        }
        proof {
            assert(paired(ids@, depths@) =~= paired(ids@, depths@) + self.pending(stack@));
        }
        (ids, depths)
    }
}

/// Every entry of every child list names a node.
pub open spec fn kids_closed(kids: Seq<Seq<usize>>) -> bool {
    forall|i: int, k: int|
        0 <= i < kids.len() && 0 <= k < kids[i].len() ==> #[trigger] kids[i][k] < kids.len()
}

proof fn lemma_subtree_bounds(kids: Seq<Seq<usize>>, i: int, d: nat)
    requires
        kids_closed(kids),
        0 <= i < kids.len(),
    ensures
        forall|k: int|
            0 <= k < subtree(kids, i, d).len() ==> {
                let (x, e) = #[trigger] subtree(kids, i, d)[k];
                0 <= x < kids.len() && d <= e < kids.len()
            },
    decreases kids.len() - d, 0int,
{
    if d < kids.len() {
        assert forall|k: int| 0 <= k < kids[i].len() implies #[trigger] kids[i][k] < kids.len() by {}
        lemma_forest_bounds(kids, kids[i], d + 1);
        let a = seq![(i, d as int)];
        let b = forest(kids, kids[i], d + 1);
        assert(subtree(kids, i, d) == a + b);
        assert forall|k: int| 0 <= k < (a + b).len() implies {
            let (x, e) = #[trigger] (a + b)[k];
            0 <= x < kids.len() && d <= e < kids.len()
        } by {
            if k >= 1 {
                assert((a + b)[k] == b[k - 1]);
            }
        }
    }
}

proof fn lemma_forest_bounds(kids: Seq<Seq<usize>>, cs: Seq<usize>, d: nat)
    requires
        kids_closed(kids),
        forall|k: int| 0 <= k < cs.len() ==> #[trigger] cs[k] < kids.len(),
    ensures
        forall|k: int|
            0 <= k < forest(kids, cs, d).len() ==> {
                let (x, e) = #[trigger] forest(kids, cs, d)[k];
                0 <= x < kids.len() && d <= e < kids.len()
            },
    decreases kids.len() - d, cs.len(),
{
    if d < kids.len() && cs.len() > 0 {
        lemma_subtree_bounds(kids, cs[0] as int, d);
        lemma_forest_bounds(kids, cs.drop_first(), d);
        let a = subtree(kids, cs[0] as int, d);
        let b = forest(kids, cs.drop_first(), d);
        assert(forest(kids, cs, d) == a + b);
        assert forall|k: int| 0 <= k < (a + b).len() implies {
            let (x, e) = #[trigger] (a + b)[k];
            0 <= x < kids.len() && d <= e < kids.len()
        } by {
            if k >= a.len() {
                assert((a + b)[k] == b[k - a.len()]);
            } else {
                assert((a + b)[k] == a[k]);
            }
        }
    }
}

/// Every entry of the hierarchical view names a record and has a depth
/// below the number of records.
pub proof fn lemma_hierarchy_bounds(recs: Seq<ProcessRecord>)
    requires
        recs.len() <= usize::MAX,
    ensures
        forall|k: int|
            0 <= k < hierarchy(recs).len() ==> {
                let (x, e) = #[trigger] hierarchy(recs)[k];
                0 <= x < recs.len() && 0 <= e < recs.len()
            },
{
    lemma_children_bounded(recs);
    lemma_roots_bounded(recs, recs.len() as int);
    let kids = child_lists(recs);
    assert forall|i: int, k: int| 0 <= i < kids.len() && 0 <= k < kids[i].len() implies #[trigger] kids[i][k] < kids.len() by {
        assert(kids[i] == children_upto(recs, i, recs.len() as int));
    }
    lemma_forest_bounds(kids, root_list(recs), 0);
}

proof fn lemma_children_upto_bounded(recs: Seq<ProcessRecord>, i: int, m: int)
    requires
        m <= recs.len() <= usize::MAX,
    ensures
        forall|k: int|
            0 <= k < children_upto(recs, i, m).len() ==> #[trigger] children_upto(recs, i, m)[k]
                < recs.len(),
    decreases m,
{
    if m > 0 {
        lemma_children_upto_bounded(recs, i, m - 1);
        let prev = children_upto(recs, i, m - 1);
        let cur = children_upto(recs, i, m);
        assert forall|k: int| 0 <= k < cur.len() implies #[trigger] cur[k] < recs.len() by {
            if k < prev.len() {
                assert(cur[k] == prev[k]);
            }
        }
    }
}

proof fn lemma_children_bounded(recs: Seq<ProcessRecord>)
    requires
        recs.len() <= usize::MAX,
    ensures
        forall|i: int, k: int|
            0 <= i < recs.len() && 0 <= k < children_upto(recs, i, recs.len() as int).len()
                ==> #[trigger] children_upto(recs, i, recs.len() as int)[k] < recs.len(),
{
    assert forall|i: int, k: int|
        0 <= i < recs.len() && 0 <= k < children_upto(recs, i, recs.len() as int).len()
            implies #[trigger] children_upto(recs, i, recs.len() as int)[k] < recs.len() by {
        lemma_children_upto_bounded(recs, i, recs.len() as int);
    }
}

proof fn lemma_roots_bounded(recs: Seq<ProcessRecord>, m: int)
    requires
        m <= recs.len() <= usize::MAX,
    ensures
        forall|k: int| 0 <= k < roots_upto(recs, m).len() ==> #[trigger] roots_upto(recs, m)[k] < recs.len(),
    decreases m,
{
    if m > 0 {
        lemma_roots_bounded(recs, m - 1);
        let prev = roots_upto(recs, m - 1);
        let cur = roots_upto(recs, m);
        assert forall|k: int| 0 <= k < cur.len() implies #[trigger] cur[k] < recs.len() by {
            if k < prev.len() {
                assert(cur[k] == prev[k]);
            }
        }
    }
}

} // verus!
