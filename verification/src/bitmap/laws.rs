//! What holds of allocations and frees, one at a time and in sequences of any length and order.
//!
//! The laws speak of the set of taken slots, which is the view of a bitmap.
use crate::bitmap::row::SLOTS_PER_ROW;
use crate::bitmap::slots::{free_slots, has_room, in_one_row};
use vstd::prelude::*;
use vstd::set_lib::set_int_range;

verus! {

/// A single slot can be allocated until every slot is taken.
pub proof fn law_room_for_one_until_full(used: Set<int>, total: int)
    requires
        0 <= total,
        used.subset_of(set_int_range(0, total)),
    ensures
        has_room(used, total, 1) <==> used.len() < total,
        used.len() <= total,
{
    let all = set_int_range(0, total);
    vstd::set_lib::lemma_int_range(0, total);
    vstd::set_lib::lemma_len_subset(used, all);
    if has_room(used, total, 1) {
        let s = choose|s: int| in_one_row(total, s, 1) && #[trigger] free_slots(used, s, 1);
        assert(!used.contains(s));
        assert(used.insert(s).subset_of(all));
        vstd::set_lib::lemma_len_subset(used.insert(s), all);
    }
    if used.len() < total {
        if forall|s: int| all.contains(s) ==> used.contains(s) {
            assert(used =~= all);
        }
        let s = choose|s: int| all.contains(s) && !used.contains(s);
        assert(in_one_row(total, s, 1));
        assert(free_slots(used, s, 1));
    }
}

/// Where no slot is taken there is room for every run that fits in a row, if there are that many
/// slots.
pub proof fn law_empty_map_has_room(total: int, n: int)
    requires
        1 <= n <= SLOTS_PER_ROW,
        n <= total,
    ensures
        has_room(Set::<int>::empty(), total, n),
{
    assert(in_one_row(total, 0, n));
    assert(free_slots(Set::<int>::empty(), 0, n));
}

/// Where a run fits, a shorter one fits too.
pub proof fn law_shorter_run_fits(used: Set<int>, total: int, n: int, m: int)
    requires
        1 <= m <= n,
        has_room(used, total, n),
    ensures
        has_room(used, total, m),
{
    let s = choose|s: int| in_one_row(total, s, n) && #[trigger] free_slots(used, s, n);
    assert(in_one_row(total, s, m));
    assert(free_slots(used, s, m));
}

/// A free undoes the allocation of the same run: the same slots are taken as before it.
pub proof fn law_free_undoes_allocate(used: Set<int>, slot: int, n: int)
    requires
        free_slots(used, slot, n),
    ensures
        used.union(set_int_range(slot, slot + n)).difference(set_int_range(slot, slot + n)) == used,
{
    assert(used.union(set_int_range(slot, slot + n)).difference(set_int_range(slot, slot + n))
        =~= used);
}

/// No slot is handed out twice: a run that is allocated shares no slot with one that is taken.
pub proof fn law_runs_are_disjoint(used: Set<int>, slot: int, n: int, other: int, m: int)
    requires
        set_int_range(slot, slot + n).subset_of(used),
        free_slots(used, other, m),
    ensures
        set_int_range(slot, slot + n).disjoint(set_int_range(other, other + m)),
{
}

/// A run stays taken while other runs are allocated and freed.
pub proof fn law_run_stays_taken(used: Set<int>, slot: int, n: int, other: int, m: int)
    requires
        set_int_range(slot, slot + n).subset_of(used),
    ensures
        set_int_range(slot, slot + n).subset_of(used.union(set_int_range(other, other + m))),
        set_int_range(slot, slot + n).disjoint(set_int_range(other, other + m))
            ==> set_int_range(slot, slot + n).subset_of(
            used.difference(set_int_range(other, other + m)),
        ),
{
}

/// A call that changes which slots are taken.
#[derive(Debug, Clone, Copy)]
pub enum Call {
    /// `n` slots from `slot` on were allocated.
    Allocated {
        /// The first slot.
        slot: usize,
        /// How many slots.
        n: usize,
    },
    /// `n` slots from `slot` on were freed.
    Freed {
        /// The first slot.
        slot: usize,
        /// How many slots.
        n: usize,
    },
}

/// The slots that are taken after some calls, where `used` were taken before them.
pub open spec fn taken_after(used: Set<int>, calls: Seq<Call>) -> Set<int>
    decreases calls.len(),
{
    if calls.len() == 0 {
        used
    } else {
        let before = taken_after(used, calls.drop_last());
        match calls.last() {
            Call::Allocated { slot, n } => before.union(set_int_range(slot as int, slot + n)),
            Call::Freed { slot, n } => before.difference(set_int_range(slot as int, slot + n)),
        }
    }
}

/// The live runs after some calls, each a first slot and a length: those that were live before the
/// calls or were allocated by one of them, and were not freed since.
pub open spec fn live_after(live: Set<(int, int)>, calls: Seq<Call>) -> Set<(int, int)>
    decreases calls.len(),
{
    if calls.len() == 0 {
        live
    } else {
        let before = live_after(live, calls.drop_last());
        match calls.last() {
            Call::Allocated { slot, n } => before.insert((slot as int, n as int)),
            Call::Freed { slot, n } => before.remove((slot as int, n as int)),
        }
    }
}

/// The calls can have been made one after the other: each allocation got at least one slot and
/// only free ones, and each free gave back a live run.
pub open spec fn is_history(used: Set<int>, live: Set<(int, int)>, calls: Seq<Call>) -> bool
    decreases calls.len(),
{
    calls.len() > 0 ==> {
        let earlier = calls.drop_last();
        &&& is_history(used, live, earlier)
        &&& match calls.last() {
            Call::Allocated { slot, n } => {
                &&& 1 <= n
                &&& free_slots(taken_after(used, earlier), slot as int, n as int)
            },
            Call::Freed { slot, n } => live_after(live, earlier).contains((slot as int, n as int)),
        }
    }
}

/// Slot `s` belongs to a run.
pub open spec fn in_run(run: (int, int), s: int) -> bool {
    run.0 <= s < run.0 + run.1
}

/// The slots of some runs.
pub open spec fn slots_of(runs: Set<(int, int)>) -> Set<int> {
    Set::new(|s: int| exists|run: (int, int)| runs.contains(run) && #[trigger] in_run(run, s))
}

/// No two of the runs share a slot.
pub open spec fn pairwise_disjoint(runs: Set<(int, int)>) -> bool {
    forall|a: (int, int), b: (int, int), s: int|
        runs.contains(a) && runs.contains(b) && #[trigger] in_run(a, s) && #[trigger] in_run(b, s)
            ==> a == b
}

/// Over any sequence of allocations and frees of live runs, the taken slots are exactly those of
/// the live runs, and no two live runs share a slot.
///
/// It is enough that this holds before the first call, as it does of a new bitmap: there nothing
/// is taken and nothing is live.
pub proof fn law_taken_slots_are_live_runs(
    used: Set<int>,
    live: Set<(int, int)>,
    calls: Seq<Call>,
)
    requires
        used == slots_of(live),
        pairwise_disjoint(live),
        is_history(used, live, calls),
    ensures
        taken_after(used, calls) == slots_of(live_after(live, calls)),
        pairwise_disjoint(live_after(live, calls)),
    decreases calls.len(),
{
    if calls.len() > 0 {
        let earlier = calls.drop_last();
        law_taken_slots_are_live_runs(used, live, earlier);
        let taken0 = taken_after(used, earlier);
        let live0 = live_after(live, earlier);
        let taken1 = taken_after(used, calls);
        let live1 = live_after(live, calls);
        match calls.last() {
            Call::Allocated { slot, n } => {
                let new = (slot as int, n as int);
                assert forall|s: int| taken1.contains(s) implies slots_of(live1).contains(s) by {
                    if in_run(new, s) {
                        assert(live1.contains(new));
                    } else {
                        let run = choose|run: (int, int)|
                            live0.contains(run) && #[trigger] in_run(run, s);
                        assert(live1.contains(run));
                    }
                }
                assert forall|s: int| slots_of(live1).contains(s) implies taken1.contains(s) by {
                    let run = choose|run: (int, int)|
                        live1.contains(run) && #[trigger] in_run(run, s);
                    if run != new {
                        assert(live0.contains(run));
                    }
                }
                assert forall|a: (int, int), b: (int, int), s: int|
                    live1.contains(a) && live1.contains(b) && #[trigger] in_run(a, s)
                        && #[trigger] in_run(b, s) implies a == b by {
                    if a != b && (a == new || b == new) {
                        let other = if a == new {
                            b
                        } else {
                            a
                        };
                        assert(live0.contains(other) && in_run(other, s));
                        assert(taken0.contains(s));
                    }
                }
            },
            Call::Freed { slot, n } => {
                let gone = (slot as int, n as int);
                assert forall|s: int| taken1.contains(s) implies slots_of(live1).contains(s) by {
                    let run = choose|run: (int, int)|
                        live0.contains(run) && #[trigger] in_run(run, s);
                    assert(!in_run(gone, s));
                    assert(live1.contains(run));
                }
                assert forall|s: int| slots_of(live1).contains(s) implies taken1.contains(s) by {
                    let run = choose|run: (int, int)|
                        live1.contains(run) && #[trigger] in_run(run, s);
                    assert(live0.contains(run) && in_run(run, s));
                    if in_run(gone, s) {
                        assert(live0.contains(gone));
                    }
                }
            },
        }
        assert(taken1 =~= slots_of(live1));
    }
}

/// Once everything that was allocated is freed, in whatever order and between whatever other
/// calls, every slot is free again.
pub proof fn law_everything_freed(calls: Seq<Call>)
    requires
        is_history(Set::empty(), Set::empty(), calls),
        live_after(Set::empty(), calls) == Set::<(int, int)>::empty(),
    ensures
        taken_after(Set::empty(), calls) == Set::<int>::empty(),
{
    assert(slots_of(Set::empty()) =~= Set::<int>::empty());
    law_taken_slots_are_live_runs(Set::empty(), Set::empty(), calls);
}

} // verus!
