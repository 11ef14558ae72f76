use crate::record::{rows_view, ProcessInfo, ProcessInfoView};
use crate::text::{lemma_text_le_total, lemma_text_le_transitive, str_le, text_le};
use vstd::prelude::*;

verus! {

/// The column that the flat view is ordered by.
#[derive(Clone, Copy, Debug, PartialEq, Eq, Structural)]
pub enum SortCategory {
    Id,
    Name,
    User,
    Memory,
    Cpu,
    DiskRead,
    DiskWrite,
    Status,
}

#[derive(Clone, Copy, Debug, PartialEq, Eq, Structural)]
pub enum SortDirection {
    Ascending,
    Descending,
}

/// A sort column together with a direction.
#[derive(Clone, Copy, Debug, PartialEq, Eq, Structural)]
pub struct SortMethod {
    pub category: SortCategory,
    pub direction: SortDirection,
}

/// `a` comes no later than `b` when ordering by `category` ascending.
pub open spec fn key_le(category: SortCategory, a: ProcessInfoView, b: ProcessInfoView) -> bool {
    match category {
        SortCategory::Id => a.id <= b.id,
        SortCategory::Name => text_le(a.name, b.name),
        SortCategory::User => text_le(a.user, b.user),
        SortCategory::Memory => a.memory <= b.memory,
        SortCategory::Cpu => text_le(a.cpu, b.cpu),
        SortCategory::DiskRead => a.disk_read <= b.disk_read,
        SortCategory::DiskWrite => a.disk_write <= b.disk_write,
        SortCategory::Status => text_le(a.status, b.status),
    }
}

/// `a` and `b` have equal values in the sort column.
pub open spec fn same_key(category: SortCategory, a: ProcessInfoView, b: ProcessInfoView) -> bool {
    key_le(category, a, b) && key_le(category, b, a)
}

/// Inserts `x` into `s` after the last element whose key is not greater than
/// its own, scanning from the back: the step of a stable insertion sort.
pub open spec fn insert_sorted(
    s: Seq<ProcessInfoView>,
    x: ProcessInfoView,
    category: SortCategory,
) -> Seq<ProcessInfoView>
    decreases s.len(),
{
    if s.len() == 0 {
        seq![x]
    } else if key_le(category, s.last(), x) {
        s.push(x)
    } else {
        insert_sorted(s.drop_last(), x, category).push(s.last())
    }
}

/// The stable ascending sort of `s` by `category`.
pub open spec fn sorted_by(s: Seq<ProcessInfoView>, category: SortCategory) -> Seq<
    ProcessInfoView,
>
    decreases s.len(),
{
    if s.len() == 0 {
        s
    } else {
        insert_sorted(sorted_by(s.drop_last(), category), s.last(), category)
    }
}

/// The order that a sort method gives: the stable ascending sort, reversed
/// as a whole when the direction is descending.
pub open spec fn arranged(s: Seq<ProcessInfoView>, method: SortMethod) -> Seq<ProcessInfoView> {
    match method.direction {
        SortDirection::Ascending => sorted_by(s, method.category),
        SortDirection::Descending => sorted_by(s, method.category).reverse(),
    }
}

pub open spec fn flipped(direction: SortDirection) -> SortDirection {
    match direction {
        SortDirection::Ascending => SortDirection::Descending,
        SortDirection::Descending => SortDirection::Ascending,
    }
}

/// The sort method after a click on the header of `category`: the same
/// column flips its direction, another column starts ascending.
pub open spec fn after_header_click(method: SortMethod, category: SortCategory) -> SortMethod {
    if method.category == category {
        SortMethod { category, direction: flipped(method.direction) }
    } else {
        SortMethod { category, direction: SortDirection::Ascending }
    }
}

fn key_le_exec(category: SortCategory, a: &ProcessInfo, b: &ProcessInfo) -> (r: bool)
    ensures
        r == key_le(category, a@, b@),
{
    match category {
        SortCategory::Id => a.id <= b.id,
        SortCategory::Name => str_le(a.name.as_str(), b.name.as_str()),
        SortCategory::User => str_le(a.user.as_str(), b.user.as_str()),
        SortCategory::Memory => a.memory <= b.memory,
        SortCategory::Cpu => str_le(a.cpu.as_str(), b.cpu.as_str()),
        SortCategory::DiskRead => a.disk_read <= b.disk_read,
        SortCategory::DiskWrite => a.disk_write <= b.disk_write,
        SortCategory::Status => str_le(a.status.as_str(), b.status.as_str()),
    }
}

proof fn lemma_insert_at(s: Seq<ProcessInfoView>, x: ProcessInfoView, category: SortCategory, p: int)
    requires
        0 <= p <= s.len(),
        forall|j: int| p <= j < s.len() ==> !key_le(category, #[trigger] s[j], x),
        p > 0 ==> key_le(category, s[p - 1], x),
    ensures
        insert_sorted(s, x, category) == s.insert(p, x),
    decreases s.len(),
{
    if s.len() == 0 {
        assert(s.insert(p, x) =~= seq![x]);
    } else if p == s.len() {
        assert(s.insert(p, x) =~= s.push(x));
    } else {
        assert(!key_le(category, s[s.len() - 1], x));
        lemma_insert_at(s.drop_last(), x, category, p);
        assert(s.drop_last().insert(p, x).push(s.last()) =~= s.insert(p, x));
    }
}

proof fn lemma_reverse_twice(s: Seq<ProcessInfoView>)
    ensures
        s.reverse().reverse() == s,
{
    assert(s.reverse().reverse() =~= s);
}

/// The rows of `s` whose sort-column value equals that of `r`, in their order in `s`.
pub open spec fn rows_keyed_like(
    s: Seq<ProcessInfoView>,
    category: SortCategory,
    r: ProcessInfoView,
) -> Seq<ProcessInfoView>
    decreases s.len(),
{
    if s.len() == 0 {
        s
    } else if same_key(category, s.last(), r) {
        rows_keyed_like(s.drop_last(), category, r).push(s.last())
    } else {
        rows_keyed_like(s.drop_last(), category, r)
    }
}

proof fn lemma_key_le_transitive(
    category: SortCategory,
    a: ProcessInfoView,
    b: ProcessInfoView,
    c: ProcessInfoView,
)
    requires
        key_le(category, a, b),
        key_le(category, b, c),
    ensures
        key_le(category, a, c),
{
    match category {
        SortCategory::Name => lemma_text_le_transitive(a.name, b.name, c.name),
        SortCategory::User => lemma_text_le_transitive(a.user, b.user, c.user),
        SortCategory::Cpu => lemma_text_le_transitive(a.cpu, b.cpu, c.cpu),
        SortCategory::Status => lemma_text_le_transitive(a.status, b.status, c.status),
        _ => {},
    }
}

proof fn lemma_insert_keeps_ties(
    s: Seq<ProcessInfoView>,
    x: ProcessInfoView,
    category: SortCategory,
    r: ProcessInfoView,
)
    ensures
        rows_keyed_like(insert_sorted(s, x, category), category, r) == rows_keyed_like(
            s.push(x),
            category,
            r,
        ),
    decreases s.len(),
{
    if s.len() == 0 {
        assert(s.push(x) =~= seq![x]);
    } else if key_le(category, s.last(), x) {
    } else {
        let d = s.drop_last();
        let last = s.last();
        let fd = rows_keyed_like(d, category, r);
        lemma_insert_keeps_ties(d, x, category, r);
        assert(s.push(x).drop_last() =~= s);
        assert(d.push(x).drop_last() =~= d);
        assert(insert_sorted(d, x, category).push(last).drop_last() =~= insert_sorted(
            d,
            x,
            category,
        ));
        if same_key(category, last, r) && same_key(category, x, r) {
            lemma_key_le_transitive(category, last, r, x);
        }
        let lhs = rows_keyed_like(insert_sorted(s, x, category), category, r);
        let rhs = rows_keyed_like(s.push(x), category, r);
        assert(s =~= d.push(last));
        if same_key(category, x, r) {
            assert(rows_keyed_like(d.push(x), category, r) == fd.push(x));
            assert(rows_keyed_like(s, category, r) == fd);
            assert(lhs == fd.push(x));
            assert(rhs == fd.push(x));
        } else if same_key(category, last, r) {
            assert(rows_keyed_like(d.push(x), category, r) == fd);
            assert(rows_keyed_like(s, category, r) == fd.push(last));
            assert(lhs == fd.push(last));
            assert(rhs == fd.push(last));
        } else {
            assert(rows_keyed_like(d.push(x), category, r) == fd);
            assert(rows_keyed_like(s, category, r) == fd);
        }
    }
}

/// Sorting is stable: for every row `r`, the rows that share `r`'s value in
/// the sort column come out in the order they went in.
pub proof fn lemma_sort_is_stable(s: Seq<ProcessInfoView>, category: SortCategory, r: ProcessInfoView)
    ensures
        rows_keyed_like(sorted_by(s, category), category, r) == rows_keyed_like(s, category, r),
    decreases s.len(),
{
    if s.len() > 0 {
        lemma_sort_is_stable(s.drop_last(), category, r);
        lemma_insert_keeps_ties(sorted_by(s.drop_last(), category), s.last(), category, r);
        lemma_push_keyed(sorted_by(s.drop_last(), category), s.drop_last(), s.last(), category, r);
        assert(s.drop_last().push(s.last()) =~= s);
    }
}

proof fn lemma_push_keyed(
    a: Seq<ProcessInfoView>,
    b: Seq<ProcessInfoView>,
    x: ProcessInfoView,
    category: SortCategory,
    r: ProcessInfoView,
)
    requires
        rows_keyed_like(a, category, r) == rows_keyed_like(b, category, r),
    ensures
        rows_keyed_like(a.push(x), category, r) == rows_keyed_like(b.push(x), category, r),
{
    assert(a.push(x).drop_last() =~= a);
    assert(b.push(x).drop_last() =~= b);
}

/// Every pair of rows is in ascending key order.
pub open spec fn ordered_by(s: Seq<ProcessInfoView>, category: SortCategory) -> bool {
    forall|i: int, j: int| 0 <= i < j < s.len() ==> key_le(category, #[trigger] s[i], #[trigger] s[j])
}

proof fn lemma_key_le_total(category: SortCategory, a: ProcessInfoView, b: ProcessInfoView)
    ensures
        key_le(category, a, b) || key_le(category, b, a),
{
    match category {
        SortCategory::Name => lemma_text_le_total(a.name, b.name),
        SortCategory::User => lemma_text_le_total(a.user, b.user),
        SortCategory::Cpu => lemma_text_le_total(a.cpu, b.cpu),
        SortCategory::Status => lemma_text_le_total(a.status, b.status),
        _ => {},
    }
}

proof fn lemma_insert_members(s: Seq<ProcessInfoView>, x: ProcessInfoView, category: SortCategory)
    ensures
        insert_sorted(s, x, category).len() == s.len() + 1,
        forall|k: int|
            0 <= k < insert_sorted(s, x, category).len() ==> #[trigger] insert_sorted(s, x, category)[k]
                == x || s.contains(insert_sorted(s, x, category)[k]),
    decreases s.len(),
{
    if s.len() > 0 && !key_le(category, s.last(), x) {
        let d = s.drop_last();
        lemma_insert_members(d, x, category);
        let r = insert_sorted(s, x, category);
        let ri = insert_sorted(d, x, category);
        assert forall|k: int| 0 <= k < r.len() implies #[trigger] r[k] == x || s.contains(r[k]) by {
            if k < ri.len() {
                assert(r[k] == ri[k]);
                if ri[k] != x {
                    let j = choose|j: int| 0 <= j < d.len() && d[j] == ri[k];
                    assert(s[j] == d[j]);
                }
            } else {
                assert(r[k] == s[s.len() - 1]);
            }
        }
    } else if s.len() > 0 {
        let r = insert_sorted(s, x, category);
        assert forall|k: int| 0 <= k < r.len() implies #[trigger] r[k] == x || s.contains(r[k]) by {
            if k < s.len() {
                assert(r[k] == s[k]);
            }
        }
    }
}

proof fn lemma_insert_ordered(s: Seq<ProcessInfoView>, x: ProcessInfoView, category: SortCategory)
    requires
        ordered_by(s, category),
    ensures
        ordered_by(insert_sorted(s, x, category), category),
    decreases s.len(),
{
    if s.len() == 0 {
    } else if key_le(category, s.last(), x) {
        let r = s.push(x);
        assert forall|i: int, j: int| 0 <= i < j < r.len() implies key_le(
            category,
            #[trigger] r[i],
            #[trigger] r[j],
        ) by {
            if j == s.len() {
                if i < s.len() - 1 {
                    lemma_key_le_transitive(category, s[i], s.last(), x);
                }
            } else {
                assert(r[i] == s[i] && r[j] == s[j]);
            }
        }
    } else {
        let d = s.drop_last();
        let last = s.last();
        lemma_key_le_total(category, last, x);
        assert(ordered_by(d, category)) by {
            assert forall|i: int, j: int| 0 <= i < j < d.len() implies key_le(
                category,
                #[trigger] d[i],
                #[trigger] d[j],
            ) by {
                assert(d[i] == s[i] && d[j] == s[j]);
            }
        }
        lemma_insert_ordered(d, x, category);
        lemma_insert_members(d, x, category);
        let ri = insert_sorted(d, x, category);
        let r = ri.push(last);
        assert forall|i: int, j: int| 0 <= i < j < r.len() implies key_le(
            category,
            #[trigger] r[i],
            #[trigger] r[j],
        ) by {
            if j == ri.len() {
                assert(r[i] == ri[i]);
                if ri[i] != x {
                    let k = choose|k: int| 0 <= k < d.len() && d[k] == ri[i];
                    assert(s[k] == d[k]);
                    assert(key_le(category, s[k], s[s.len() - 1]));
                }
            } else {
                assert(r[i] == ri[i] && r[j] == ri[j]);
            }
        }
    }
}

/// The sort's result is in ascending key order.
pub proof fn lemma_sort_is_ordered(s: Seq<ProcessInfoView>, category: SortCategory)
    ensures
        ordered_by(sorted_by(s, category), category),
    decreases s.len(),
{
    if s.len() > 0 {
        lemma_sort_is_ordered(s.drop_last(), category);
        lemma_insert_ordered(sorted_by(s.drop_last(), category), s.last(), category);
    }
}

/// Flipping the direction of a sort method, column unchanged, gives exactly
/// the reverse of the order it gave before.
pub proof fn lemma_toggle_reverses(s: Seq<ProcessInfoView>, method: SortMethod)
    ensures
        arranged(s, SortMethod { category: method.category, direction: flipped(method.direction) })
            == arranged(s, method).reverse(),
{
    lemma_reverse_twice(sorted_by(s, method.category));
}

impl SortMethod {
    /// Orders `processes_info` by this method: a stable ascending sort on the
    /// chosen column, then the whole sequence reversed when descending.
    pub fn sort(&self, processes_info: &mut Vec<ProcessInfo>)
        ensures
            rows_view(final(processes_info)@) == arranged(rows_view(old(processes_info)@), *self),
    {
        let category = self.category;
        let mut input: Vec<ProcessInfo> = Vec::new();
        std::mem::swap(processes_info, &mut input);
        let ghost initial = rows_view(input@);
        assert(initial.len() == input.len());
        let mut out: Vec<ProcessInfo> = Vec::new();
        let mut k: usize = 0;
        // Consume the input from the back into `rest`, so that popping `rest`
        // yields the rows in input order.
        let mut rest: Vec<ProcessInfo> = Vec::new();
        while input.len() > 0
            invariant
                rows_view(input@) + rows_view(rest@).reverse() == initial,
            decreases input.len(),
        {
            let ghost before_input = input@;
            let ghost before_rest = rest@;
            let x = input.pop().unwrap();
            rest.push(x);
            assert(rows_view(input@) + rows_view(rest@).reverse() =~= rows_view(before_input)
                + rows_view(before_rest).reverse());
        }
        assert(rows_view(rest@).reverse() =~= initial);
        while rest.len() > 0
            invariant
                initial.len() <= usize::MAX,
                k + rest.len() == initial.len(),
                rows_view(rest@).reverse() == initial.subrange(k as int, initial.len() as int),
                rows_view(out@) == sorted_by(initial.take(k as int), category),
            decreases rest.len(),
        {
            let ghost before_rest = rest@;
            let x = rest.pop().unwrap();
            assert(x@ == initial[k as int]) by {
                assert(rows_view(before_rest).reverse()[0] == initial[k as int]);
            }
            assert(rows_view(rest@).reverse() =~= initial.subrange(k + 1, initial.len() as int))
                by {
                assert(rows_view(rest@).reverse() =~= rows_view(before_rest).reverse().drop_first());
            }
            let mut pos: usize = out.len();
            while pos > 0 && !key_le_exec(category, &out[pos - 1], &x)
                invariant
                    pos <= out.len(),
                    forall|j: int|
                        pos <= j < out.len() ==> !key_le(category, #[trigger] out[j]@, x@),
                decreases pos,
            {
                pos = pos - 1;
            }
            proof {
                let s = rows_view(out@);
                assert forall|j: int| pos <= j < s.len() implies !key_le(
                    category,
                    #[trigger] s[j],
                    x@,
                ) by {
                    assert(s[j] == out[j]@);
                }
                lemma_insert_at(s, x@, category, pos as int);
                assert(initial.take(k + 1).drop_last() =~= initial.take(k as int));
                assert(initial.take(k + 1).last() == x@);
            }
            let ghost before_out = out@;
            out.insert(pos, x);
            assert(rows_view(out@) =~= rows_view(before_out).insert(pos as int, x@));
            k = k + 1;
        }
        assert(initial.take(k as int) =~= initial);
        if self.direction == SortDirection::Descending {
            let mut reversed: Vec<ProcessInfo> = Vec::new();
            let ghost ascending = rows_view(out@);
            while out.len() > 0
                invariant
                    rows_view(out@) + rows_view(reversed@).reverse() == ascending,
                decreases out.len(),
            {
                let ghost before_out = out@;
                let ghost before_rev = reversed@;
                let x = out.pop().unwrap();
                reversed.push(x);
                assert(rows_view(out@) + rows_view(reversed@).reverse() =~= rows_view(before_out)
                    + rows_view(before_rev).reverse());
            }
            proof {
                assert(rows_view(reversed@).reverse() =~= ascending);
                lemma_reverse_twice(rows_view(reversed@));
            }
            *processes_info = reversed;
        } else {
            *processes_info = out;
        }
    }

    /// Flips the direction and keeps the column.
    pub fn toggle_direction(&mut self)
        ensures
            final(self).category == old(self).category,
            final(self).direction == flipped(old(self).direction),
    {
        match self.direction {
            SortDirection::Ascending => self.direction = SortDirection::Descending,
            SortDirection::Descending => self.direction = SortDirection::Ascending,
        }
    }

    /// Applies a click on the header of `category`.
    pub fn select_category(&mut self, category: SortCategory)
        ensures
            *final(self) == after_header_click(*old(self), category),
    {
        if self.category == category {
            self.toggle_direction();
        } else {
            self.category = category;
            self.direction = SortDirection::Ascending;
        }
    }
}

impl Default for SortMethod {
    /// CPU, descending.
    fn default() -> (r: Self)
        ensures
            r == (SortMethod { category: SortCategory::Cpu, direction: SortDirection::Descending }),
    {
        SortMethod { category: SortCategory::Cpu, direction: SortDirection::Descending }
    }
}

} // verus!
