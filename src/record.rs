use crate::text::{byte_size_text, decimal, decimal_string, format_bytes};
use vstd::prelude::*;
use vstd::string::*;

verus! {

/// One process as reported by the enumeration source, reduced to plain values.
pub struct ProcessRecord {
    pub pid: u32,
    /// Parent process id, when the source reports one.
    pub parent: Option<u32>,
    /// Process name, when it could be resolved to text.
    pub name: Option<String>,
    /// Executable path, when it could be resolved to text.
    pub path: Option<String>,
    /// Owner's account name, when the owner could be resolved.
    pub user: Option<String>,
    /// Resident memory in bytes.
    pub memory: u64,
    /// CPU share per logical core, already rendered (`"12.34%"`).
    pub cpu: String,
    pub disk_read: u64,
    pub disk_write: u64,
    /// True for a lightweight-thread entry, false for a true process.
    pub is_thread: bool,
    pub status: String,
}

/// One display-ready row of the process table.
pub struct ProcessInfo {
    /// Number of ancestors above this row in hierarchical view; 0 in flat view.
    pub child_depth: usize,
    pub id: u32,
    pub name: String,
    pub user: String,
    pub memory: u64,
    pub cpu: String,
    pub disk_read: u64,
    pub disk_write: u64,
    pub path: String,
    pub status: String,
}

/// The mathematical content of a row.
pub struct ProcessInfoView {
    pub child_depth: nat,
    pub id: u32,
    pub name: Seq<char>,
    pub user: Seq<char>,
    pub memory: u64,
    pub cpu: Seq<char>,
    pub disk_read: u64,
    pub disk_write: u64,
    pub path: Seq<char>,
    pub status: Seq<char>,
}

impl View for ProcessInfo {
    type V = ProcessInfoView;

    open spec fn view(&self) -> ProcessInfoView {
        ProcessInfoView {
            child_depth: self.child_depth as nat,
            id: self.id,
            name: self.name@,
            user: self.user@,
            memory: self.memory,
            cpu: self.cpu@,
            disk_read: self.disk_read,
            disk_write: self.disk_write,
            path: self.path@,
            status: self.status@,
        }
    }
}

/// The views of a sequence of rows.
pub open spec fn rows_view(rows: Seq<ProcessInfo>) -> Seq<ProcessInfoView> {
    Seq::new(rows.len(), |k: int| rows[k]@)
}

/// The single character shown in place of a field that could not be resolved.
pub open spec fn placeholder() -> Seq<char> {
    seq!['-']
}

pub open spec fn text_or_placeholder(t: Option<String>) -> Seq<char> {
    match t {
        Some(s) => s@,
        None => placeholder(),
    }
}

/// The row that a record becomes at the given depth.
pub open spec fn info_of(r: ProcessRecord, depth: nat) -> ProcessInfoView {
    ProcessInfoView {
        child_depth: depth,
        id: r.pid,
        name: text_or_placeholder(r.name),
        user: text_or_placeholder(r.user),
        memory: r.memory,
        cpu: r.cpu@,
        disk_read: r.disk_read,
        disk_write: r.disk_write,
        path: text_or_placeholder(r.path),
        status: r.status@,
    }
}

fn text_or_placeholder_string(t: &Option<String>) -> (r: String)
    ensures
        r@ == text_or_placeholder(*t),
{
    match t {
        Some(s) => s.clone(),
        None => {
            proof {
                reveal_strlit("-");
            }
            String::from_str("-")
        },
    }
}

/// Builds the row for one record at the given depth; unresolved name, user
/// and path become the placeholder.
pub fn extract_info(record: &ProcessRecord, child_depth: usize) -> (r: ProcessInfo)
    ensures
        r@ == info_of(*record, child_depth as nat),
{
    ProcessInfo {
        child_depth,
        id: record.pid,
        name: text_or_placeholder_string(&record.name),
        user: text_or_placeholder_string(&record.user),
        memory: record.memory,
        cpu: record.cpu.clone(),
        disk_read: record.disk_read,
        disk_write: record.disk_write,
        path: text_or_placeholder_string(&record.path),
        status: record.status.clone(),
    }
}

/// The shorter of two lengths.
pub open spec fn paired_len(a: nat, b: nat) -> nat {
    if a < b {
        a
    } else {
        b
    }
}

/// Builds one row per entry of `order`, paired with `indentations` entry by
/// entry: the record at that index, at the depth given beside it.
pub fn extract_processes_info(
    records: &Vec<ProcessRecord>,
    order: &Vec<usize>,
    indentations: &Vec<usize>,
) -> (r: Vec<ProcessInfo>)
    requires
        forall|k: int|
            0 <= k < paired_len(order.len() as nat, indentations.len() as nat) ==> #[trigger] order[k]
                < records.len(),
    ensures
        r.len() == paired_len(order.len() as nat, indentations.len() as nat),
        forall|k: int|
            0 <= k < r.len() ==> #[trigger] r[k]@ == info_of(
                records[order[k] as int],
                indentations[k] as nat,
            ),
{
    let n: usize = if order.len() < indentations.len() {
        order.len()
    } else {
        indentations.len()
    };
    let mut rows: Vec<ProcessInfo> = Vec::new();
    let mut k: usize = 0;
    while k < n
        invariant
            k <= n,
            n == paired_len(order.len() as nat, indentations.len() as nat),
            forall|j: int| 0 <= j < n ==> #[trigger] order[j] < records.len(),
            rows.len() == k,
            forall|j: int|
                0 <= j < k ==> #[trigger] rows[j]@ == info_of(
                    records[order[j] as int],
                    indentations[j] as nat,
                ),
        decreases n - k,
    {
        rows.push(extract_info(&records[order[k]], indentations[k]));
        k = k + 1;
    }
    rows
}

impl ProcessInfo {
    /// The texts of the table's columns, in order: name, id, user, memory,
    /// CPU, disk read, disk write, path, status.
    pub fn cells(&self) -> (r: Vec<String>)
        ensures
            r.len() == 9,
            r[0]@ == self.name@,
            r[1]@ == decimal(self.id as nat),
            r[2]@ == self.user@,
            r[3]@ == byte_size_text(self.memory),
            r[4]@ == self.cpu@,
            r[5]@ == byte_size_text(self.disk_read),
            r[6]@ == byte_size_text(self.disk_write),
            r[7]@ == self.path@,
            r[8]@ == self.status@,
    {
        let mut r: Vec<String> = Vec::new();
        r.push(self.name.clone());
        r.push(decimal_string(self.id));
        r.push(self.user.clone());
        r.push(format_bytes(self.memory));
        r.push(self.cpu.clone());
        r.push(format_bytes(self.disk_read));
        r.push(format_bytes(self.disk_write));
        r.push(self.path.clone());
        r.push(self.status.clone());
        r
    }
}

} // verus!
