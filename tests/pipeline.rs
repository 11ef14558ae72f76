use process_manager::{
    extract_info, extract_processes_info, filter_thread_processes, filter_user_input,
    has_unique_pids, prepare_processes, ProcessInfo,
    ProcessRecord, ProcessSnapshotStore, ProcessTree, SortCategory, SortDirection, SortMethod,
    UserInput,
};

fn record(pid: u32, parent: Option<u32>, name: &str) -> ProcessRecord {
    ProcessRecord {
        pid,
        parent,
        name: Some(name.to_string()),
        path: Some(format!("/usr/bin/{}", name)),
        user: Some("root".to_string()),
        memory: 1000 * pid as u64,
        cpu: format!("{}.00%", pid),
        disk_read: 10 * pid as u64,
        disk_write: 20 * pid as u64,
        is_thread: false,
        status: "Run".to_string(),
    }
}

fn three_processes() -> Vec<ProcessRecord> {
    vec![
        record(1, None, "init"),
        record(2, Some(1), "shell"),
        record(3, Some(2), "editor"),
    ]
}

fn view(hierarchical: bool, filter: &str, method: SortMethod, threads: bool) -> UserInput {
    UserInput::new(None, threads, hierarchical, filter.to_string(), method, true)
}

fn by_name_ascending() -> SortMethod {
    SortMethod { category: SortCategory::Name, direction: SortDirection::Ascending }
}

fn names(rows: &[ProcessInfo]) -> Vec<String> {
    rows.iter().map(|r| r.name.clone()).collect()
}

fn ids(rows: &[ProcessInfo]) -> Vec<u32> {
    rows.iter().map(|r| r.id).collect()
}

fn depths(rows: &[ProcessInfo]) -> Vec<usize> {
    rows.iter().map(|r| r.child_depth).collect()
}

#[test]
fn hierarchy_of_three_is_a_chain() {
    let rows = prepare_processes(&three_processes(), &view(true, "", SortMethod::default(), false));
    assert_eq!(ids(&rows), vec![1, 2, 3]);
    assert_eq!(depths(&rows), vec![0, 1, 2]);
}

#[test]
fn flat_view_sorted_by_name() {
    let rows = prepare_processes(&three_processes(), &view(false, "", by_name_ascending(), false));
    assert_eq!(names(&rows), vec!["editor", "init", "shell"]);
    assert_eq!(depths(&rows), vec![0, 0, 0]);
}

#[test]
fn filter_ed_keeps_only_editor() {
    for hierarchical in [true, false] {
        for method in [by_name_ascending(), SortMethod::default()] {
            let rows = prepare_processes(&three_processes(), &view(hierarchical, "ed", method, false));
            assert_eq!(names(&rows), vec!["editor"]);
        }
    }
}

#[test]
fn hidden_parent_drops_subtree_in_hierarchy_only() {
    let mut records = three_processes();
    records[0].is_thread = true;
    let tree_rows = prepare_processes(&records, &view(true, "", by_name_ascending(), false));
    assert!(tree_rows.is_empty());
    let flat = prepare_processes(&records, &view(false, "", by_name_ascending(), false));
    assert_eq!(names(&flat), vec!["editor", "shell"]);
}

#[test]
fn orphans_and_cycles_are_left_out_of_hierarchy() {
    let records = vec![
        record(10, None, "root"),
        record(11, Some(99), "orphan"),
        record(12, Some(13), "loop_a"),
        record(13, Some(12), "loop_b"),
        record(14, Some(10), "child"),
        record(15, Some(15), "self_parent"),
    ];
    let rows = prepare_processes(&records, &view(true, "", SortMethod::default(), false));
    assert_eq!(ids(&rows), vec![10, 14]);
    assert_eq!(depths(&rows), vec![0, 1]);
}

#[test]
fn siblings_keep_input_order_in_preorder() {
    let records = vec![
        record(1, None, "a"),
        record(5, Some(1), "b"),
        record(2, None, "c"),
        record(3, Some(1), "d"),
        record(4, Some(5), "e"),
    ];
    let tree = ProcessTree::build(&records);
    let (order, depth) = tree.flattened();
    assert_eq!(order, vec![0, 1, 4, 3, 2]);
    assert_eq!(depth, vec![0, 1, 2, 1, 0]);
}

#[test]
fn root_depth_zero_and_child_one_deeper() {
    let records = vec![
        record(1, None, "a"),
        record(2, Some(1), "b"),
        record(3, Some(2), "c"),
        record(4, Some(1), "d"),
        record(7, None, "e"),
        record(8, Some(7), "f"),
    ];
    let rows = prepare_processes(&records, &view(true, "", SortMethod::default(), false));
    for (k, row) in rows.iter().enumerate() {
        let rec = records.iter().find(|r| r.pid == row.id).unwrap();
        match rec.parent {
            None => assert_eq!(row.child_depth, 0),
            Some(p) => {
                let parent_row = rows[..k].iter().rev().find(|r| r.id == p).unwrap();
                assert_eq!(row.child_depth, parent_row.child_depth + 1);
            }
        }
    }
    assert_eq!(rows.len(), 6);
}

#[test]
fn empty_snapshot_gives_no_rows() {
    let records: Vec<ProcessRecord> = Vec::new();
    assert!(prepare_processes(&records, &view(true, "", SortMethod::default(), false)).is_empty());
    assert!(prepare_processes(&records, &view(false, "x", SortMethod::default(), true)).is_empty());
}

#[test]
fn threads_shown_when_asked() {
    let mut records = three_processes();
    records[2].is_thread = true;
    let hidden = prepare_processes(&records, &view(false, "", by_name_ascending(), false));
    assert_eq!(names(&hidden), vec!["init", "shell"]);
    let shown = prepare_processes(&records, &view(false, "", by_name_ascending(), true));
    assert_eq!(names(&shown), vec!["editor", "init", "shell"]);
}

#[test]
fn filter_thread_processes_in_place() {
    let mut records = three_processes();
    records[1].is_thread = true;
    let mut kept = three_processes();
    kept[1].is_thread = true;
    filter_thread_processes(false, &mut records);
    assert_eq!(records.iter().map(|r| r.pid).collect::<Vec<_>>(), vec![1, 3]);
    filter_thread_processes(true, &mut kept);
    assert_eq!(kept.len(), 3);
}

#[test]
fn stable_sort_keeps_ties_in_order() {
    let mut records = vec![
        record(1, None, "b"),
        record(2, None, "a"),
        record(3, None, "b"),
        record(4, None, "a"),
        record(5, None, "b"),
    ];
    for r in records.iter_mut() {
        r.status = "Sleep".to_string();
    }
    records[1].status = "Run".to_string();
    let rows = prepare_processes(&records, &view(false, "", by_name_ascending(), false));
    assert_eq!(ids(&rows), vec![2, 4, 1, 3, 5]);
    let method = SortMethod { category: SortCategory::Status, direction: SortDirection::Ascending };
    let rows = prepare_processes(&records, &view(false, "", method, false));
    assert_eq!(ids(&rows), vec![2, 1, 3, 4, 5]);
}

#[test]
fn toggled_direction_reverses() {
    let records = vec![
        record(4, None, "d"),
        record(1, None, "a"),
        record(3, None, "a"),
        record(2, None, "c"),
    ];
    let mut method = by_name_ascending();
    let ascending = prepare_processes(&records, &view(false, "", method, false));
    method.toggle_direction();
    assert_eq!(method.direction, SortDirection::Descending);
    assert_eq!(method.category, SortCategory::Name);
    let descending = prepare_processes(&records, &view(false, "", method, false));
    let mut reversed = ids(&ascending);
    reversed.reverse();
    assert_eq!(ids(&descending), reversed);
    assert_eq!(ids(&ascending), vec![1, 3, 2, 4]);
}

#[test]
fn sort_by_each_numeric_column() {
    let mut records = vec![record(3, None, "c"), record(1, None, "a"), record(2, None, "b")];
    records[0].memory = 5;
    records[1].memory = 50;
    records[2].memory = 500;
    let cases = [
        (SortCategory::Id, vec![1, 2, 3]),
        (SortCategory::Memory, vec![3, 1, 2]),
        (SortCategory::DiskRead, vec![1, 2, 3]),
        (SortCategory::DiskWrite, vec![1, 2, 3]),
        (SortCategory::User, vec![3, 1, 2]),
    ];
    for (category, expected) in cases {
        let method = SortMethod { category, direction: SortDirection::Ascending };
        let rows = prepare_processes(&records, &view(false, "", method, false));
        assert_eq!(ids(&rows), expected);
    }
}

#[test]
fn cpu_column_sorts_as_text() {
    let mut records = vec![record(1, None, "a"), record(2, None, "b"), record(3, None, "c")];
    records[0].cpu = "9.00%".to_string();
    records[1].cpu = "10.00%".to_string();
    records[2].cpu = "2.50%".to_string();
    let rows = prepare_processes(&records, &view(false, "", SortMethod::default(), false));
    assert_eq!(ids(&rows), vec![1, 3, 2]);
}

#[test]
fn default_sort_is_cpu_descending() {
    let method = SortMethod::default();
    assert_eq!(method.category, SortCategory::Cpu);
    assert_eq!(method.direction, SortDirection::Descending);
}

#[test]
fn header_click_transitions() {
    let mut method = SortMethod::default();
    method.select_category(SortCategory::Cpu);
    assert_eq!(method.direction, SortDirection::Ascending);
    method.select_category(SortCategory::Memory);
    assert_eq!(method.category, SortCategory::Memory);
    assert_eq!(method.direction, SortDirection::Ascending);
    method.select_category(SortCategory::Memory);
    assert_eq!(method.direction, SortDirection::Descending);
    let mut input = UserInput::default();
    input.click_sort_header(SortCategory::Name);
    assert_eq!(*input.sort_method(), by_name_ascending());
}

#[test]
fn text_filter_matches_name_user_or_path() {
    let mut records = three_processes();
    records[0].user = Some("admin".to_string());
    records[1].path = None;
    let rows = prepare_processes(&records, &view(false, "adm", by_name_ascending(), false));
    assert_eq!(names(&rows), vec!["init"]);
    let rows = prepare_processes(&records, &view(false, "/usr/bin/", by_name_ascending(), false));
    assert_eq!(names(&rows), vec!["editor", "init"]);
    let rows = prepare_processes(&records, &view(false, "Shell", by_name_ascending(), false));
    assert!(rows.is_empty());
}

#[test]
fn filter_user_input_is_a_subset() {
    let rows_of = |filter: &str| {
        let mut rows = prepare_processes(&three_processes(), &view(true, "", SortMethod::default(), false));
        filter_user_input(filter, &mut rows);
        rows
    };
    let all = rows_of("");
    assert_eq!(all.len(), 3);
    let some = rows_of("it");
    assert_eq!(names(&some), vec!["init", "editor"]);
    for row in &some {
        assert!(row.name.contains("it") || row.user.contains("it") || row.path.contains("it"));
    }
}

#[test]
fn unresolved_fields_become_placeholders() {
    let mut records = vec![record(7, None, "x")];
    records[0].name = None;
    records[0].path = None;
    records[0].user = None;
    let rows = prepare_processes(&records, &view(false, "", SortMethod::default(), false));
    assert_eq!(rows[0].name, "-");
    assert_eq!(rows[0].path, "-");
    assert_eq!(rows[0].user, "-");
    assert_eq!(rows[0].memory, 7000);
    assert_eq!(rows[0].cpu, "7.00%");
}

#[test]
fn cells_render_each_column() {
    let records = vec![record(42, None, "daemon")];
    let rows = prepare_processes(&records, &view(false, "", SortMethod::default(), false));
    let cells = rows[0].cells();
    assert_eq!(
        cells,
        vec!["daemon", "42", "root", "42.0 KB", "42.00%", "420 B", "840 B", "/usr/bin/daemon", "Run"]
    );
}

#[test]
fn small_byte_counts_render_exactly() {
    let mut records = vec![record(1, None, "a")];
    records[0].memory = 0;
    records[0].disk_read = 999;
    records[0].disk_write = 1500;
    let rows = prepare_processes(&records, &view(false, "", SortMethod::default(), false));
    let cells = rows[0].cells();
    assert_eq!(cells[3], "0 B");
    assert_eq!(cells[5], "999 B");
    assert_eq!(cells[6], "1.5 KB");
}

#[test]
fn unique_pid_check() {
    assert!(has_unique_pids(&three_processes()));
    let mut records = three_processes();
    records[2].pid = 1;
    assert!(!has_unique_pids(&records));
    assert!(has_unique_pids(&Vec::new()));
}

#[test]
fn user_input_defaults_and_setters() {
    let mut input = UserInput::default();
    assert_eq!(input.selected_pid(), None);
    assert!(!input.show_thread_processes());
    assert!(input.hierarchical_view());
    assert_eq!(input.process_filter(), "");
    assert!(input.continue_refreshing());
    assert_eq!(*input.sort_method(), SortMethod::default());
    input.process_filter_mut().push_str("abc");
    assert_eq!(input.process_filter(), "abc");
    input.clear_process_filter();
    assert_eq!(input.process_filter(), "");
    *input.hierarchical_view_mut() = false;
    assert!(!input.hierarchical_view());
    *input.show_thread_processes_mut() = true;
    assert!(input.show_thread_processes());
    input.sort_method_mut().toggle_direction();
    assert_eq!(input.sort_method().direction, SortDirection::Ascending);
    input.set_continue_refreshing(false);
    assert!(!input.continue_refreshing());
}

#[test]
fn vanished_selection_is_cleared() {
    let records = three_processes();
    let mut input = UserInput::default();
    input.set_selected_pid(Some(2));
    input.forget_vanished_selection(&records);
    assert_eq!(input.selected_pid(), Some(2));
    input.set_selected_pid(Some(9));
    input.forget_vanished_selection(&records);
    assert_eq!(input.selected_pid(), None);
}

#[test]
fn pause_freezes_scheduled_ticks_but_not_manual_refresh() {
    let mut store = ProcessSnapshotStore::from_records(three_processes());
    let mut calls = 0;
    for _ in 0..5 {
        let repaint = store.scheduled_tick(Some(false), || {
            calls += 1;
            vec![record(9, None, "new")]
        });
        assert!(!repaint);
    }
    assert_eq!(calls, 0);
    assert!(!store.scheduled_tick(None, || vec![record(9, None, "new")]));
    assert_eq!(store.records().len(), 3);
    store.refresh(vec![record(8, None, "manual")]);
    assert_eq!(store.records().len(), 1);
    assert_eq!(store.records()[0].pid, 8);
    assert!(store.scheduled_tick(Some(true), || vec![record(9, None, "new"), record(10, None, "b")]));
    assert_eq!(store.records().len(), 2);
    assert!(ProcessSnapshotStore::new().records().is_empty());
}

#[test]
fn extraction_pairs_order_with_depths() {
    let records = three_processes();
    let rows = extract_processes_info(&records, &vec![2, 0, 1], &vec![5, 6]);
    assert_eq!(ids(&rows), vec![3, 1]);
    assert_eq!(depths(&rows), vec![5, 6]);
    let row = extract_info(&records[1], 4);
    assert_eq!(row.id, 2);
    assert_eq!(row.child_depth, 4);
    assert_eq!(row.name, "shell");
    assert_eq!(row.path, "/usr/bin/shell");
    assert_eq!(row.disk_read, 20);
    assert_eq!(row.disk_write, 40);
}

#[test]
fn largest_values_render() {
    let mut records = vec![record(u32::MAX, None, "big")];
    records[0].memory = u64::MAX;
    let rows = prepare_processes(&records, &view(false, "", SortMethod::default(), false));
    let cells = rows[0].cells();
    assert_eq!(cells[1], "4294967295");
    assert_eq!(cells[3], "18.4 EB");
}
