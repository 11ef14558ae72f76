use crate::record::ProcessRecord;
use vstd::prelude::*;

verus! {

/// Holds the most recent enumeration of the process table. It is replaced
/// whole, never edited in place.
pub struct ProcessSnapshotStore {
    records: Vec<ProcessRecord>,
}

impl View for ProcessSnapshotStore {
    type V = Seq<ProcessRecord>;

    closed spec fn view(&self) -> Seq<ProcessRecord> {
        self.records@
    }
}

/// The snapshot after one scheduled tick whose enumeration would give
/// `fresh`: replaced only when refreshing is on. `None` stands for a view
/// state that could not be read, which skips the tick.
pub open spec fn after_tick(
    snapshot: Seq<ProcessRecord>,
    continue_refreshing: Option<bool>,
    fresh: Seq<ProcessRecord>,
) -> Seq<ProcessRecord> {
    if continue_refreshing == Some(true) {
        fresh
    } else {
        snapshot
    }
}

/// The snapshot after a run of scheduled ticks, one per entry of `freshes`.
pub open spec fn after_ticks(
    snapshot: Seq<ProcessRecord>,
    continue_refreshing: Option<bool>,
    freshes: Seq<Seq<ProcessRecord>>,
) -> Seq<ProcessRecord>
    decreases freshes.len(),
{
    if freshes.len() == 0 {
        snapshot
    } else {
        after_tick(
            after_ticks(snapshot, continue_refreshing, freshes.drop_last()),
            continue_refreshing,
            freshes.last(),
        )
    }
}

/// The snapshot after a refresh asked for by the operator: always the
/// fresh enumeration, whatever the pause flag says.
pub open spec fn after_manual_refresh(
    snapshot: Seq<ProcessRecord>,
    fresh: Seq<ProcessRecord>,
) -> Seq<ProcessRecord> {
    fresh
}

/// While refreshing is paused (or the view state cannot be read), any number
/// of scheduled ticks leaves the snapshot as it was, and a manual refresh
/// during the pause still installs the fresh enumeration.
pub proof fn lemma_pause_freezes_snapshot(
    snapshot: Seq<ProcessRecord>,
    continue_refreshing: Option<bool>,
    freshes: Seq<Seq<ProcessRecord>>,
    manual: Seq<ProcessRecord>,
)
    requires
        continue_refreshing != Some(true),
    ensures
        after_ticks(snapshot, continue_refreshing, freshes) == snapshot,
        after_manual_refresh(after_ticks(snapshot, continue_refreshing, freshes), manual)
            == manual,
    decreases freshes.len(),
{
    if freshes.len() > 0 {
        lemma_pause_freezes_snapshot(snapshot, continue_refreshing, freshes.drop_last(), manual);
    }
}

impl ProcessSnapshotStore {
    /// A store holding an empty snapshot.
    pub fn new() -> (r: Self)
        ensures
            r@ == Seq::<ProcessRecord>::empty(),
    {
        ProcessSnapshotStore { records: Vec::new() }
    }

    pub fn from_records(records: Vec<ProcessRecord>) -> (r: Self)
        ensures
            r@ == records@,
    {
        ProcessSnapshotStore { records }
    }

    /// The current snapshot.
    pub fn records(&self) -> (r: &Vec<ProcessRecord>)
        ensures
            r@ == self@,
    {
        &self.records
    }

    /// A manual refresh: installs `fresh` whatever the pause flag says.
    pub fn refresh(&mut self, fresh: Vec<ProcessRecord>)
        ensures
            final(self)@ == after_manual_refresh(old(self)@, fresh@),
    {
        self.records = fresh;
    }

    /// One scheduled tick. When refreshing is on, calls `enumerate` and
    /// installs what it returns, and asks for a repaint; otherwise neither
    /// calls it nor changes the snapshot.
    pub fn scheduled_tick<F: FnOnce() -> Vec<ProcessRecord>>(
        &mut self,
        continue_refreshing: Option<bool>,
        enumerate: F,
    ) -> (repaint: bool)
        requires
            enumerate.requires(()),
        ensures
            repaint == (continue_refreshing == Some(true)),
            continue_refreshing == Some(true) ==> exists|fresh: Vec<ProcessRecord>|
                #[trigger] enumerate.ensures((), fresh) && final(self)@ == after_tick(
                    old(self)@,
                    continue_refreshing,
                    fresh@,
                ),
            continue_refreshing != Some(true) ==> final(self)@ == old(self)@,
    {
        match continue_refreshing {
            Some(true) => {
                let fresh = enumerate();
                self.records = fresh;
                true
            },
            _ => false,
        }
    }
}

} // verus!
