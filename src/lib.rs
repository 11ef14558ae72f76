//! Process table view model: snapshot store, parent/child tree
//! reconstruction, and the filter-sort-format pipeline that turns a raw
//! snapshot plus operator intent into ordered display rows.

pub mod ancestry;
pub mod input;
pub mod pipeline;
pub mod record;
pub mod snapshot;
pub mod sorting;
pub mod text;
pub mod tree;

pub use input::{UserInput, UserInputView};
pub use pipeline::{filter_thread_processes, filter_user_input, has_unique_pids, prepare_processes};
pub use record::{extract_info, extract_processes_info, ProcessInfo, ProcessInfoView, ProcessRecord};
pub use snapshot::ProcessSnapshotStore;
pub use sorting::{SortCategory, SortDirection, SortMethod};
pub use tree::ProcessTree;
