use crate::record::ProcessRecord;
use crate::sorting::{after_header_click, SortCategory, SortDirection, SortMethod};
use vstd::prelude::*;

verus! {

/// Operator-adjustable view state.
pub struct UserInput {
    selected_pid: Option<u32>,
    show_thread_processes: bool,
    hierarchical_view: bool,
    process_filter: String,
    sort_method: SortMethod,
    continue_refreshing: bool,
}

/// The mathematical content of a `UserInput`.
pub struct UserInputView {
    pub selected_pid: Option<u32>,
    pub show_thread_processes: bool,
    pub hierarchical_view: bool,
    pub process_filter: Seq<char>,
    pub sort_method: SortMethod,
    pub continue_refreshing: bool,
}

impl View for UserInput {
    type V = UserInputView;

    closed spec fn view(&self) -> UserInputView {
        UserInputView {
            selected_pid: self.selected_pid,
            show_thread_processes: self.show_thread_processes,
            hierarchical_view: self.hierarchical_view,
            process_filter: self.process_filter@,
            sort_method: self.sort_method,
            continue_refreshing: self.continue_refreshing,
        }
    }
}

/// Some record of the snapshot has process id `pid`.
pub open spec fn pid_present(records: Seq<ProcessRecord>, pid: u32) -> bool {
    exists|k: int| 0 <= k < records.len() && #[trigger] records[k].pid == pid
}

impl Default for UserInput {
    /// Nothing selected, threads hidden, hierarchical view, empty filter,
    /// CPU descending, refreshing.
    fn default() -> (r: Self)
        ensures
            r@ == (UserInputView {
                selected_pid: None,
                show_thread_processes: false,
                hierarchical_view: true,
                process_filter: Seq::empty(),
                sort_method: SortMethod {
                    category: SortCategory::Cpu,
                    direction: SortDirection::Descending,
                },
                continue_refreshing: true,
            }),
    {
        UserInput {
            selected_pid: None,
            show_thread_processes: false,
            hierarchical_view: true,
            process_filter: String::new(),
            sort_method: SortMethod::default(),
            continue_refreshing: true,
        }
    }
}

impl UserInput {
    /// A state with every field given.
    pub fn new(
        selected_pid: Option<u32>,
        show_thread_processes: bool,
        hierarchical_view: bool,
        process_filter: String,
        sort_method: SortMethod,
        continue_refreshing: bool,
    ) -> (r: Self)
        ensures
            r@ == (UserInputView {
                selected_pid,
                show_thread_processes,
                hierarchical_view,
                process_filter: process_filter@,
                sort_method,
                continue_refreshing,
            }),
    {
        UserInput {
            selected_pid,
            show_thread_processes,
            hierarchical_view,
            process_filter,
            sort_method,
            continue_refreshing,
        }
    }

    pub fn selected_pid(&self) -> (r: Option<u32>)
        ensures
            r == self@.selected_pid,
    {
        self.selected_pid
    }

    pub fn set_selected_pid(&mut self, pid: Option<u32>)
        ensures
            final(self)@ == (UserInputView { selected_pid: pid, ..old(self)@ }),
    {
        self.selected_pid = pid;
    }

    /// Clears the selection when its process is not in `records`.
    pub fn forget_vanished_selection(&mut self, records: &Vec<ProcessRecord>)
        ensures
            final(self)@ == (UserInputView {
                selected_pid: match old(self)@.selected_pid {
                    Some(pid) => if pid_present(records@, pid) {
                        Some(pid)
                    } else {
                        None
                    },
                    None => None,
                },
                ..old(self)@
            }),
    {
        if let Some(pid) = self.selected_pid {
            let mut found = false;
            let mut k: usize = 0;
            while k < records.len()
                invariant
                    k <= records.len(),
                    found == exists|j: int| 0 <= j < k && #[trigger] records@[j].pid == pid,
                decreases records.len() - k,
            {
                if records[k].pid == pid {
                    found = true;
                }
                k = k + 1;
            }
            if !found {
                self.selected_pid = None;
            }
        }
    }

    pub fn process_filter(&self) -> (r: &str)
        ensures
            r@ == self@.process_filter,
    {
        self.process_filter.as_str()
    }

    pub fn clear_process_filter(&mut self)
        ensures
            final(self)@ == (UserInputView { process_filter: Seq::empty(), ..old(self)@ }),
    {
        self.process_filter = String::new();
    }

    /// The filter text, for an editor to change in place.
    pub fn process_filter_mut(&mut self) -> (r: &mut String)
        ensures
            (*r)@ == old(self)@.process_filter,
            final(self)@ == (UserInputView { process_filter: (*final(r))@, ..old(self)@ }),
    {
        &mut self.process_filter
    }

    pub fn hierarchical_view(&self) -> (r: bool)
        ensures
            r == self@.hierarchical_view,
    {
        self.hierarchical_view
    }

    pub fn hierarchical_view_mut(&mut self) -> (r: &mut bool)
        ensures
            *r == old(self)@.hierarchical_view,
            final(self)@ == (UserInputView { hierarchical_view: *final(r), ..old(self)@ }),
    {
        &mut self.hierarchical_view
    }

    pub fn show_thread_processes(&self) -> (r: bool)
        ensures
            r == self@.show_thread_processes,
    {
        self.show_thread_processes
    }

    pub fn show_thread_processes_mut(&mut self) -> (r: &mut bool)
        ensures
            *r == old(self)@.show_thread_processes,
            final(self)@ == (UserInputView { show_thread_processes: *final(r), ..old(self)@ }),
    {
        &mut self.show_thread_processes
    }

    pub fn sort_method(&self) -> (r: &SortMethod)
        ensures
            *r == self@.sort_method,
    {
        &self.sort_method
    }

    pub fn sort_method_mut(&mut self) -> (r: &mut SortMethod)
        ensures
            *r == old(self)@.sort_method,
            final(self)@ == (UserInputView { sort_method: *final(r), ..old(self)@ }),
    {
        &mut self.sort_method
    }

    /// Applies a click on the header of `category` to the sort method.
    pub fn click_sort_header(&mut self, category: SortCategory)
        ensures
            final(self)@ == (UserInputView {
                sort_method: after_header_click(old(self)@.sort_method, category),
                ..old(self)@
            }),
    {
        self.sort_method.select_category(category);
    }

    pub fn continue_refreshing(&self) -> (r: bool)
        ensures
            r == self@.continue_refreshing,
    {
        self.continue_refreshing
    }

    pub fn set_continue_refreshing(&mut self, continue_refreshing: bool)
        ensures
            final(self)@ == (UserInputView { continue_refreshing, ..old(self)@ }),
    {
        self.continue_refreshing = continue_refreshing;
    }
}

} // verus!
