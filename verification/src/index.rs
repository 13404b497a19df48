//! The index table: slots, the linear-probe geometry, and counting
//! arguments over tables of slots.

use vstd::prelude::*;

verus! {

/// One cell of the index table.
///
/// `Empty` terminates a probe, `Deleted` (a tombstone) does not, and
/// `Occupied(i)` refers to the entry at ordinal `i` in the entry vector.
#[derive(Clone, Copy, Debug, PartialEq, Eq, Structural)]
pub enum Slot {
    Empty,
    Deleted,
    Occupied(usize),
}

impl Slot {
    /// Whether the slot is empty.
    pub fn is_empty(&self) -> (r: bool)
        ensures
            r == (*self is Empty),
    {
        matches!(*self, Slot::Empty)
    }

    /// Whether the slot is a tombstone.
    pub fn is_deleted(&self) -> (r: bool)
        ensures
            r == (*self is Deleted),
    {
        matches!(*self, Slot::Deleted)
    }

    /// Whether the slot refers to an entry.
    pub fn is_occupied(&self) -> (r: bool)
        ensures
            r == (*self is Occupied),
    {
        matches!(*self, Slot::Occupied(_))
    }
}

/// The slot visited on the `j`-th probe step from home position `h`,
/// in a table of `cap` slots: linear probing advances one slot at a
/// time and wraps around.
pub open spec fn probe_at(h: int, j: int, cap: int) -> int {
    (h + j) % cap
}

/// The number of probe steps from home position `h` to slot `s`.
pub open spec fn probe_dist(h: int, s: int, cap: int) -> int {
    (s - h) % cap
}

/// Every slot on the probe path from `h` up to, but not including, `s`
/// is non-empty, so a probe from `h` reaches `s` without terminating.
pub open spec fn path_clear(table: Seq<Slot>, h: int, s: int) -> bool {
    forall|j: int|
        0 <= j < probe_dist(h, s, table.len() as int) ==> !(#[trigger] table[probe_at(
            h,
            j,
            table.len() as int,
        )] is Empty)
}

/// Some slot of the table holds `Occupied(i)`.
pub open spec fn table_has_ordinal(table: Seq<Slot>, i: int) -> bool {
    exists|s: int| 0 <= s < table.len() && table[s] == Slot::Occupied(i as usize)
}

/// How many slots of `s` satisfy `p`.
pub open spec fn count_matching(s: Seq<Slot>, p: spec_fn(Slot) -> bool) -> int
    decreases s.len(),
{
    if s.len() == 0 {
        0
    } else {
        count_matching(s.drop_last(), p) + if p(s.last()) {
            1int
        } else {
            0int
        }
    }
}

/// The predicate that holds of empty slots.
pub open spec fn empty_pred() -> spec_fn(Slot) -> bool {
    |s: Slot| s is Empty
}

/// The predicate that holds of tombstones.
pub open spec fn deleted_pred() -> spec_fn(Slot) -> bool {
    |s: Slot| s is Deleted
}

/// The predicate that holds of occupied slots.
pub open spec fn occupied_pred() -> spec_fn(Slot) -> bool {
    |s: Slot| s is Occupied
}

/// A count never exceeds the table's length and is never negative.
pub proof fn lemma_count_bounds(s: Seq<Slot>, p: spec_fn(Slot) -> bool)
    ensures
        0 <= count_matching(s, p) <= s.len(),
    decreases s.len(),
{
    if s.len() > 0 {
        lemma_count_bounds(s.drop_last(), p);
    }
}

/// A count is positive exactly when some slot satisfies the predicate.
pub proof fn lemma_count_exists(s: Seq<Slot>, p: spec_fn(Slot) -> bool)
    ensures
        count_matching(s, p) > 0 <==> exists|i: int| 0 <= i < s.len() && p(s[i]),
    decreases s.len(),
{
    if s.len() > 0 {
        lemma_count_exists(s.drop_last(), p);
        lemma_count_bounds(s.drop_last(), p);
        if count_matching(s, p) > 0 {
            if p(s.last()) {
                assert(p(s[s.len() - 1]));
            } else {
                let i = choose|i: int| 0 <= i < s.drop_last().len() && p(s.drop_last()[i]);
                assert(p(s[i]));
            }
        }
        if exists|i: int| 0 <= i < s.len() && p(s[i]) {
            let i = choose|i: int| 0 <= i < s.len() && p(s[i]);
            if i < s.len() - 1 {
                assert(p(s.drop_last()[i]));
            }
        }
    }
}

/// Replacing the slot at `i` adjusts a count by what the old and new
/// slots contribute.
pub proof fn lemma_count_update(s: Seq<Slot>, p: spec_fn(Slot) -> bool, i: int, v: Slot)
    requires
        0 <= i < s.len(),
    ensures
        count_matching(s.update(i, v), p) == count_matching(s, p) + (if p(v) {
            1int
        } else {
            0int
        }) - (if p(s[i]) {
            1int
        } else {
            0int
        }),
    decreases s.len(),
{
    let t = s.update(i, v);
    if i == s.len() - 1 {
        assert(t.drop_last() =~= s.drop_last());
    } else {
        assert(t.drop_last() =~= s.drop_last().update(i, v));
        lemma_count_update(s.drop_last(), p, i, v);
    }
}

/// Tables that agree pointwise on the predicate have equal counts.
pub proof fn lemma_count_pointwise(s1: Seq<Slot>, s2: Seq<Slot>, p: spec_fn(Slot) -> bool)
    requires
        s1.len() == s2.len(),
        forall|i: int| 0 <= i < s1.len() ==> p(s1[i]) == p(s2[i]),
    ensures
        count_matching(s1, p) == count_matching(s2, p),
    decreases s1.len(),
{
    if s1.len() > 0 {
        assert(forall|i: int|
            0 <= i < s1.drop_last().len() ==> p(s1.drop_last()[i]) == p(s2.drop_last()[i]));
        lemma_count_pointwise(s1.drop_last(), s2.drop_last(), p);
    }
}

/// Every slot is empty, a tombstone, or occupied, so the three counts
/// partition the table.
pub proof fn lemma_count_partition(s: Seq<Slot>)
    ensures
        count_matching(s, empty_pred()) + count_matching(s, deleted_pred()) + count_matching(
            s,
            occupied_pred(),
        ) == s.len(),
    decreases s.len(),
{
    if s.len() > 0 {
        lemma_count_partition(s.drop_last());
    }
}

/// A probe step lands inside the table.
pub proof fn lemma_probe_in_range(h: int, j: int, cap: int)
    requires
        cap > 0,
    ensures
        0 <= probe_at(h, j, cap) < cap,
{
    assert(0 <= (h + j) % cap < cap) by (nonlinear_arith)
        requires
            cap > 0,
    ;
}

/// The probe from `h` reaches any slot `e` in fewer than `cap` steps,
/// namely after `probe_dist(h, e, cap)` of them.
pub proof fn lemma_probe_reaches(h: int, e: int, cap: int)
    requires
        cap > 0,
        0 <= h < cap,
        0 <= e < cap,
    ensures
        0 <= probe_dist(h, e, cap) < cap,
        probe_at(h, probe_dist(h, e, cap), cap) == e,
{
    assert(0 <= (e - h) % cap < cap) by (nonlinear_arith)
        requires
            cap > 0,
    ;
    assert((h + ((e - h) % cap)) % cap == e) by (nonlinear_arith)
        requires
            cap > 0,
            0 <= h < cap,
            0 <= e < cap,
    ;
}

/// A clear probe path stays clear when no slot on it goes from
/// non-empty to empty.
pub proof fn lemma_path_clear_monotone(t1: Seq<Slot>, t2: Seq<Slot>, h: int, s: int)
    requires
        t1.len() == t2.len(),
        t1.len() > 0,
        forall|p: int| 0 <= p < t1.len() && !(t1[p] is Empty) ==> !((#[trigger] t2[p]) is Empty),
        path_clear(t1, h, s),
    ensures
        path_clear(t2, h, s),
{
    let cap = t1.len() as int;
    assert forall|j: int| 0 <= j < probe_dist(h, s, cap) implies !(t2[#[trigger] probe_at(
        h,
        j,
        cap,
    )] is Empty) by {
        lemma_probe_in_range(h, j, cap);
        assert(!(t1[probe_at(h, j, cap)] is Empty));
    }
}

/// The zeroth probe step stays at the home slot.
pub proof fn lemma_probe_zero(h: int, cap: int)
    requires
        cap > 0,
        0 <= h < cap,
    ensures
        probe_at(h, 0, cap) == h,
{
    assert((h + 0) % cap == h) by (nonlinear_arith)
        requires
            cap > 0,
            0 <= h < cap,
    ;
}

/// Each probe step advances one slot, wrapping at the table's end.
pub proof fn lemma_probe_step(h: int, j: int, cap: int)
    requires
        cap > 0,
        j >= 0,
    ensures
        probe_at(h, j + 1, cap) == (probe_at(h, j, cap) + 1) % cap,
{
    assert((h + (j + 1)) % cap == (((h + j) % cap) + 1) % cap) by (nonlinear_arith)
        requires
            cap > 0,
    ;
}

/// Distinct probe steps within the first `cap` visit distinct slots;
/// the step count is recovered by `probe_dist`.
pub proof fn lemma_probe_dist_of_step(h: int, j: int, cap: int)
    requires
        cap > 0,
        0 <= h < cap,
        0 <= j < cap,
    ensures
        probe_dist(h, probe_at(h, j, cap), cap) == j,
{
    assert((((h + j) % cap) - h) % cap == j) by (nonlinear_arith)
        requires
            cap > 0,
            0 <= h < cap,
            0 <= j < cap,
    ;
}

} // verus!
