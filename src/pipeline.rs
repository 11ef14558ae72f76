use crate::ancestry::{lemma_hierarchy_lists_reachable, reachable_set};
use crate::input::{UserInput, UserInputView};
use crate::record::{
    extract_processes_info, info_of, rows_view, ProcessInfo, ProcessInfoView, ProcessRecord,
};
use crate::sorting::arranged;
use crate::text::{occurs_in, str_contains};
use crate::tree::{hierarchy, lemma_hierarchy_bounds, paired, unique_pids, ProcessTree};
use std::collections::HashSet;
use vstd::prelude::*;

verus! {

broadcast use vstd::std_specs::hash::group_hash_axioms;

/// The records that stay visible: all of them when threads are shown, else
/// the true processes only, in input order.
pub open spec fn visible_records(recs: Seq<ProcessRecord>, show_threads: bool) -> Seq<
    ProcessRecord,
>
    decreases recs.len(),
{
    if recs.len() == 0 {
        recs
    } else if show_threads || !recs.last().is_thread {
        visible_records(recs.drop_last(), show_threads).push(recs.last())
    } else {
        visible_records(recs.drop_last(), show_threads)
    }
}

/// The rows of the hierarchical view: one per entry of the pre-order, at its depth.
pub open spec fn tree_rows(recs: Seq<ProcessRecord>) -> Seq<ProcessInfoView> {
    let h = hierarchy(recs);
    Seq::new(h.len(), |k: int| info_of(recs[h[k].0], h[k].1 as nat))
}

/// The rows of the flat view before sorting: one per record, depth 0.
pub open spec fn flat_rows(recs: Seq<ProcessRecord>) -> Seq<ProcessInfoView> {
    Seq::new(recs.len(), |k: int| info_of(recs[k], 0))
}

/// The filter text occurs in the row's name, user or path.
pub open spec fn row_matches(row: ProcessInfoView, filter: Seq<char>) -> bool {
    occurs_in(filter, row.name) || occurs_in(filter, row.user) || occurs_in(filter, row.path)
}

/// The rows that match the filter text, in order.
pub open spec fn filtered_rows(rows: Seq<ProcessInfoView>, filter: Seq<char>) -> Seq<
    ProcessInfoView,
>
    decreases rows.len(),
{
    if rows.len() == 0 {
        rows
    } else if row_matches(rows.last(), filter) {
        filtered_rows(rows.drop_last(), filter).push(rows.last())
    } else {
        filtered_rows(rows.drop_last(), filter)
    }
}

/// The display rows for a snapshot under the given view state.
pub open spec fn prepared(recs: Seq<ProcessRecord>, input: UserInputView) -> Seq<ProcessInfoView> {
    let visible = visible_records(recs, input.show_thread_processes);
    let rows = if input.hierarchical_view {
        tree_rows(visible)
    } else {
        arranged(flat_rows(visible), input.sort_method)
    };
    filtered_rows(rows, input.process_filter)
}

fn copy_text(t: &Option<String>) -> (r: Option<String>)
    ensures
        r == *t,
{
    match t {
        Some(s) => Some(s.clone()),
        None => None,
    }
}

fn copy_record(r: &ProcessRecord) -> (c: ProcessRecord)
    ensures
        c == *r,
{
    ProcessRecord {
        pid: r.pid,
        parent: r.parent,
        name: copy_text(&r.name),
        path: copy_text(&r.path),
        user: copy_text(&r.user),
        memory: r.memory,
        cpu: r.cpu.clone(),
        disk_read: r.disk_read,
        disk_write: r.disk_write,
        is_thread: r.is_thread,
        status: r.status.clone(),
    }
}

/// Drops the lightweight-thread entries unless threads are shown.
pub fn filter_thread_processes(show_thread_processes: bool, processes: &mut Vec<ProcessRecord>)
    ensures
        final(processes)@ == visible_records(old(processes)@, show_thread_processes),
{
    if show_thread_processes {
        proof {
            lemma_all_visible(processes@);
        }
        return;
    }
    let mut input: Vec<ProcessRecord> = Vec::new();
    std::mem::swap(processes, &mut input);
    let ghost initial = input@;
    let mut kept: Vec<ProcessRecord> = Vec::new();
    for x in it: input.into_iter()
        invariant
            it.seq() == initial,
            kept@ == visible_records(initial.take(it.index() as int), false),
    {
        proof {
            let k = it.index() as int;
            assert(initial.take(k + 1).drop_last() =~= initial.take(k));
            assert(initial.take(k + 1).last() == initial[k]);
        }
        if !x.is_thread {
            kept.push(x);
        }
    }
    assert(initial.take(initial.len() as int) =~= initial);
    *processes = kept;
}

proof fn lemma_all_visible(recs: Seq<ProcessRecord>)
    ensures
        visible_records(recs, true) == recs,
    decreases recs.len(),
{
    if recs.len() > 0 {
        lemma_all_visible(recs.drop_last());
        assert(recs.drop_last().push(recs.last()) =~= recs);
    }
}

proof fn lemma_empty_filter_keeps_all(rows: Seq<ProcessInfoView>, filter: Seq<char>)
    requires
        filter.len() == 0,
    ensures
        filtered_rows(rows, filter) == rows,
    decreases rows.len(),
{
    if rows.len() > 0 {
        lemma_empty_filter_keeps_all(rows.drop_last(), filter);
        let name = rows.last().name;
        assert(name.subrange(0, 0 + filter.len() as int) =~= filter);
        assert(row_matches(rows.last(), filter));
        assert(rows.drop_last().push(rows.last()) =~= rows);
    }
}

/// Text filtering is a pure subset operation: every row kept matches the
/// filter in its name, user or path and was among the input rows, and no
/// matching input row is dropped.
pub proof fn lemma_filter_keeps_exactly_matches(rows: Seq<ProcessInfoView>, filter: Seq<char>)
    ensures
        forall|k: int|
            0 <= k < filtered_rows(rows, filter).len() ==> row_matches(
                #[trigger] filtered_rows(rows, filter)[k],
                filter,
            ) && rows.contains(filtered_rows(rows, filter)[k]),
        forall|k: int|
            0 <= k < rows.len() && row_matches(#[trigger] rows[k], filter) ==> filtered_rows(
                rows,
                filter,
            ).contains(rows[k]),
    decreases rows.len(),
{
    if rows.len() > 0 {
        let d = rows.drop_last();
        lemma_filter_keeps_exactly_matches(d, filter);
        let fd = filtered_rows(d, filter);
        let out = filtered_rows(rows, filter);
        assert forall|k: int| 0 <= k < out.len() implies row_matches(#[trigger] out[k], filter)
            && rows.contains(out[k]) by {
            if k < fd.len() {
                assert(out[k] == fd[k]);
                let j = choose|j: int| 0 <= j < d.len() && d[j] == fd[k];
                assert(rows[j] == d[j]);
            } else {
                assert(out[k] == rows[rows.len() - 1]);
            }
        }
        assert forall|k: int| 0 <= k < rows.len() && row_matches(#[trigger] rows[k], filter)
            implies out.contains(rows[k]) by {
            if k < d.len() {
                assert(d[k] == rows[k]);
                let j = choose|j: int| 0 <= j < fd.len() && fd[j] == d[k];
                assert(out[j] == fd[j]);
            } else {
                assert(out[out.len() - 1] == rows[k]);
            }
        }
    }
}

proof fn lemma_visible_shorter(recs: Seq<ProcessRecord>, show_threads: bool)
    ensures
        visible_records(recs, show_threads).len() <= recs.len(),
    decreases recs.len(),
{
    if recs.len() > 0 {
        lemma_visible_shorter(recs.drop_last(), show_threads);
    }
}

/// With the hierarchical view on and no filter text, the number of rows is
/// the number of visible records reachable from a visible root through
/// visible parents.
pub proof fn lemma_tree_view_counts_reachable(recs: Seq<ProcessRecord>, input: UserInputView)
    requires
        unique_pids(recs),
        recs.len() <= usize::MAX,
        input.hierarchical_view,
        input.process_filter.len() == 0,
    ensures
        prepared(recs, input).len() == reachable_set(
            visible_records(recs, input.show_thread_processes),
        ).len(),
{
    let visible = visible_records(recs, input.show_thread_processes);
    lemma_visible_unique(recs, input.show_thread_processes);
    lemma_visible_shorter(recs, input.show_thread_processes);
    lemma_empty_filter_keeps_all(tree_rows(visible), input.process_filter);
    lemma_hierarchy_lists_reachable(visible);
}

/// Keeps the rows whose name, user or path contains the filter text; an
/// empty filter keeps every row.
pub fn filter_user_input(process_filter: &str, processes_info: &mut Vec<ProcessInfo>)
    ensures
        rows_view(final(processes_info)@) == filtered_rows(
            rows_view(old(processes_info)@),
            process_filter@,
        ),
{
    if process_filter.unicode_len() == 0 {
        proof {
            lemma_empty_filter_keeps_all(rows_view(processes_info@), process_filter@);
        }
        return;
    }
    let mut input: Vec<ProcessInfo> = Vec::new();
    std::mem::swap(processes_info, &mut input);
    let ghost initial = rows_view(input@);
    let ghost items = input@;
    let mut kept: Vec<ProcessInfo> = Vec::new();
    for x in it: input.into_iter()
        invariant
            it.seq() == items,
            initial == rows_view(items),
            rows_view(kept@) == filtered_rows(initial.take(it.index() as int), process_filter@),
    {
        proof {
            let k = it.index() as int;
            assert(initial.take(k + 1).drop_last() =~= initial.take(k));
            assert(initial.take(k + 1).last() == x@);
        }
        if str_contains(x.name.as_str(), process_filter) || str_contains(
            x.user.as_str(),
            process_filter,
        ) || str_contains(x.path.as_str(), process_filter) {
            let ghost before = kept@;
            kept.push(x);
            assert(rows_view(kept@) =~= rows_view(before).push(x@));
        }
    }
    assert(initial.take(initial.len() as int) =~= initial);
    *processes_info = kept;
}

spec fn is_record_of(recs: Seq<ProcessRecord>, x: ProcessRecord) -> bool {
    exists|j: int| 0 <= j < recs.len() && #[trigger] recs[j] == x
}

proof fn lemma_visible_unique(recs: Seq<ProcessRecord>, show_threads: bool)
    requires
        unique_pids(recs),
    ensures
        unique_pids(visible_records(recs, show_threads)),
        forall|k: int|
            0 <= k < visible_records(recs, show_threads).len() ==> is_record_of(
                recs,
                #[trigger] visible_records(recs, show_threads)[k],
            ),
    decreases recs.len(),
{
    if recs.len() > 0 {
        let d = recs.drop_last();
        assert(unique_pids(d)) by {
            assert forall|i: int, j: int|
                0 <= i < d.len() && 0 <= j < d.len() && i != j implies #[trigger] d[i].pid
                != #[trigger] d[j].pid by {
                assert(d[i] == recs[i] && d[j] == recs[j]);
            }
        }
        lemma_visible_unique(d, show_threads);
        let v = visible_records(d, show_threads);
        let w = visible_records(recs, show_threads);
        assert forall|k: int| 0 <= k < v.len() implies is_record_of(recs, #[trigger] v[k]) by {
            let j = choose|j: int| 0 <= j < d.len() && #[trigger] d[j] == v[k];
            assert(recs[j] == v[k]);
        }
        if show_threads || !recs.last().is_thread {
            assert forall|k: int| 0 <= k < v.len() implies #[trigger] v[k].pid != recs.last().pid by {
                let j = choose|j: int| 0 <= j < d.len() && #[trigger] d[j] == v[k];
                assert(recs[j] == v[k]);
                assert(recs[j].pid != recs[recs.len() - 1].pid);
            }
            assert forall|k: int| 0 <= k < w.len() implies is_record_of(recs, #[trigger] w[k]) by {
                if k == v.len() {
                    assert(recs[recs.len() - 1] == w[k]);
                } else {
                    assert(w[k] == v[k]);
                }
            }
            assert forall|i: int, j: int|
                0 <= i < w.len() && 0 <= j < w.len() && i != j implies #[trigger] w[i].pid
                != #[trigger] w[j].pid by {
                if i < v.len() && j < v.len() {
                    assert(w[i] == v[i] && w[j] == v[j]);
                } else if i < v.len() {
                    assert(w[i] == v[i]);
                } else {
                    assert(w[j] == v[j]);
                }
            }
        }
    }
}

/// The display rows for a snapshot: thread filter, then the tree pre-order
/// (hierarchical view) or the sorted flat list, then the text filter.
pub fn prepare_processes(records: &Vec<ProcessRecord>, user_input: &UserInput) -> (r: Vec<
    ProcessInfo,
>)
    requires
        unique_pids(records@),
    ensures
        rows_view(r@) == prepared(records@, user_input@),
{
    let mut visible: Vec<ProcessRecord> = Vec::new();
    let mut k: usize = 0;
    while k < records.len()
        invariant
            k <= records.len(),
            visible@ == records@.take(k as int),
        decreases records.len() - k,
    {
        visible.push(copy_record(&records[k]));
        assert(visible@ =~= records@.take(k + 1));
        k = k + 1;
    }
    assert(visible@ =~= records@);
    filter_thread_processes(user_input.show_thread_processes(), &mut visible);
    proof {
        lemma_visible_unique(records@, user_input@.show_thread_processes);
    }
    let mut processes_info = if user_input.hierarchical_view() {
        let tree = ProcessTree::build(&visible);
        let (order, indentations) = tree.flattened();
        proof {
            lemma_hierarchy_bounds(visible@);
            assert forall|j: int| 0 <= j < order.len() implies order[j] < visible.len() by {
                assert(paired(order@, indentations@)[j] == hierarchy(visible@)[j]);
            }
        }
        let rows = extract_processes_info(&visible, &order, &indentations);
        proof {
            let h = hierarchy(visible@);
            assert forall|j: int| 0 <= j < rows.len() implies #[trigger] rows_view(rows@)[j]
                == tree_rows(visible@)[j] by {
                assert(paired(order@, indentations@)[j] == h[j]);
                assert(rows[j]@ == info_of(visible@[order[j] as int], indentations[j] as nat));
            }
            assert(rows_view(rows@) =~= tree_rows(visible@));
        }
        rows
    } else {
        let mut order: Vec<usize> = Vec::new();
        let mut indentations: Vec<usize> = Vec::new();
        let mut j: usize = 0;
        while j < visible.len()
            invariant
                j <= visible.len(),
                order.len() == j,
                indentations.len() == j,
                forall|i: int| 0 <= i < j ==> order[i] == i && indentations[i] == 0,
            decreases visible.len() - j,
        {
            order.push(j);
            indentations.push(0);
            j = j + 1;
        }
        let mut rows = extract_processes_info(&visible, &order, &indentations);
        assert(rows_view(rows@) =~= flat_rows(visible@));
        user_input.sort_method().sort(&mut rows);
        rows
    };
    filter_user_input(user_input.process_filter(), &mut processes_info);
    processes_info
}

/// True when no two records share a process id.
pub fn has_unique_pids(records: &Vec<ProcessRecord>) -> (r: bool)
    ensures
        r == unique_pids(records@),
{
    let mut seen: HashSet<u32> = HashSet::new();
    let mut k: usize = 0;
    while k < records.len()
        invariant
            k <= records.len(),
            forall|p: u32| seen@.contains(p) <==> exists|j: int| 0 <= j < k && #[trigger] records@[j].pid == p,
            unique_pids(records@.take(k as int)),
        decreases records.len() - k,
    {
        let pid = records[k].pid;
        if seen.contains(&pid) {
            proof {
                let j = choose|j: int| 0 <= j < k && #[trigger] records@[j].pid == pid;
                assert(records@[j].pid == records@[k as int].pid);
            }
            return false;
        }
        seen.insert(pid);
        proof {
            let t = records@.take(k + 1);
            assert forall|i: int, j: int|
                0 <= i < t.len() && 0 <= j < t.len() && i != j implies #[trigger] t[i].pid
                != #[trigger] t[j].pid by {
                if i < k && j < k {
                    assert(records@.take(k as int)[i] == t[i]);
                    assert(records@.take(k as int)[j] == t[j]);
                }
            }
        }
        k = k + 1;
    }
    assert(records@.take(k as int) =~= records@);
    true
}

} // verus!
