//! The history as a graph: commits in the order they are drawn, and the lane each one and
//! each line between them takes.
use crate::git::{bytes_less, duplicate_ids, ids_view, ObjectId};
use vstd::set_lib::{lemma_int_range, lemma_len_subset, set_int_range};
use vstd::prelude::*;

verus! {

broadcast use vstd::seq_lib::group_seq_properties;

/// One commit in the graph, placed. `incoming` and `outgoing` are lane indices in the gap
/// above and the gap below this row; `through` are lanes that cross the row without
/// touching the commit. A renderer needs nothing else to draw it.
#[derive(Clone)]
pub struct GraphRow {
    pub commit: ObjectId,
    pub lane: usize,
    pub incoming: Vec<usize>,
    pub outgoing: Vec<usize>,
    pub through: Vec<usize>,
}

/// What a [`GraphRow`] says, by value.
pub struct LaneRow {
    pub commit: Seq<u8>,
    pub lane: int,
    pub incoming: Seq<int>,
    pub outgoing: Seq<int>,
    pub through: Seq<int>,
}

/// Lane indices as numbers.
pub open spec fn as_ints(lanes: Seq<usize>) -> Seq<int> {
    lanes.map_values(|lane: usize| lane as int)
}

impl View for GraphRow {
    type V = LaneRow;

    open spec fn view(&self) -> LaneRow {
        LaneRow {
            commit: self.commit@,
            lane: self.lane as int,
            incoming: as_ints(self.incoming@),
            outgoing: as_ints(self.outgoing@),
            through: as_ints(self.through@),
        }
    }
}

/// The lanes between two rows: each either carries the line to the commit it is waiting for,
/// or is free.
pub type Lanes = Seq<Option<Seq<u8>>>;

pub open spec fn slot_view(slot: Option<ObjectId>) -> Option<Seq<u8>> {
    match slot {
        Some(id) => Some(id@),
        None => None,
    }
}

pub open spec fn lanes_view(active: Seq<Option<ObjectId>>) -> Lanes {
    active.map_values(|slot: Option<ObjectId>| slot_view(slot))
}

/// The lanes, lowest first, waiting for `id`.
pub open spec fn lanes_holding(active: Lanes, id: Seq<u8>) -> Seq<int>
    decreases active.len(),
{
    if active.len() == 0 {
        Seq::empty()
    } else if active.last() == Some(id) {
        lanes_holding(active.drop_last(), id).push(active.len() - 1)
    } else {
        lanes_holding(active.drop_last(), id)
    }
}

/// The lanes, lowest first, that carry a line.
pub open spec fn lanes_taken(active: Lanes) -> Seq<int>
    decreases active.len(),
{
    if active.len() == 0 {
        Seq::empty()
    } else if active.last() is Some {
        lanes_taken(active.drop_last()).push(active.len() - 1)
    } else {
        lanes_taken(active.drop_last())
    }
}

/// The lowest free lane, or one past the last when none is free.
pub open spec fn first_free(active: Lanes) -> int
    decreases active.len(),
{
    if active.len() == 0 {
        0
    } else if first_free(active.drop_last()) < active.len() - 1 {
        first_free(active.drop_last())
    } else if active.last() is None {
        active.len() - 1
    } else {
        active.len() as int
    }
}

/// The lowest free lane, opening a new one when none is free.
pub open spec fn claim_free(active: Lanes) -> (int, Lanes) {
    let free = first_free(active);
    (free, if free == active.len() {
        active.push(None)
    } else {
        active
    })
}

/// The lowest lane waiting for `id`, or -1.
pub open spec fn first_holding(active: Lanes, id: Seq<u8>) -> int
    decreases active.len(),
{
    if active.len() == 0 {
        -1
    } else if first_holding(active.drop_last(), id) >= 0 {
        first_holding(active.drop_last(), id)
    } else if active.last() == Some(id) {
        active.len() - 1
    } else {
        -1
    }
}

/// Every lane waiting for `id` freed.
pub open spec fn release(active: Lanes, id: Seq<u8>) -> Lanes {
    active.map_values(
        |slot: Option<Seq<u8>>|
            if slot == Some(id) {
                None
            } else {
                slot
            },
    )
}

/// The parents of a commit given lanes below it, in order: the first takes the commit's own
/// lane, a later one joins a lane already waiting for it or else takes the lowest free one.
pub open spec fn place_parents(active: Lanes, lane: int, parents: Seq<Seq<u8>>) -> (
    Lanes,
    Seq<int>,
)
    decreases parents.len(),
{
    if parents.len() == 0 {
        (active, Seq::empty())
    } else {
        let (placed, outgoing) = place_parents(active, lane, parents.drop_last());
        let parent = parents.last();
        if parents.len() == 1 {
            (placed.update(lane, Some(parent)), outgoing.push(lane))
        } else if first_holding(placed, parent) >= 0 {
            let joined = first_holding(placed, parent);
            (placed.update(joined, Some(parent)), outgoing.push(joined))
        } else {
            let (free, opened) = claim_free(placed);
            (opened.update(free, Some(parent)), outgoing.push(free))
        }
    }
}

/// Free lanes at the right-hand edge dropped.
pub open spec fn trim(active: Lanes) -> Lanes
    decreases active.len(),
{
    if active.len() > 0 && active.last() is None {
        trim(active.drop_last())
    } else {
        active
    }
}

/// One row: the commit takes the lowest lane waiting for it, or the lowest free lane when
/// none is, and hands its lanes on to its parents.
pub open spec fn lane_step(active: Lanes, commit: Seq<u8>, parents: Seq<Seq<u8>>) -> (
    LaneRow,
    Lanes,
) {
    let incoming = lanes_holding(active, commit);
    let released = release(active, commit);
    let (lane, opened) = if incoming.len() > 0 {
        (incoming[0], released)
    } else {
        claim_free(released)
    };
    let through = lanes_taken(opened);
    let (placed, outgoing) = place_parents(opened, lane, parents);
    (
        LaneRow { commit, lane, incoming, outgoing, through },
        trim(placed),
    )
}

/// The rows for a run of commits, in order, and the lanes left open below the last.
pub open spec fn lane_rows(commits: Seq<(Seq<u8>, Seq<Seq<u8>>)>) -> (Seq<LaneRow>, Lanes)
    decreases commits.len(),
{
    if commits.len() == 0 {
        (Seq::empty(), Seq::empty())
    } else {
        let (rows, active) = lane_rows(commits.drop_last());
        let (row, next) = lane_step(active, commits.last().0, commits.last().1);
        (rows.push(row), next)
    }
}

pub open spec fn commits_view(commits: Seq<(ObjectId, Vec<ObjectId>)>) -> Seq<
    (Seq<u8>, Seq<Seq<u8>>),
> {
    commits.map_values(|c: (ObjectId, Vec<ObjectId>)| (c.0@, ids_view(c.1@)))
}

// ---------------------------------------------------------------------------------------
// The executable lane pass
// ---------------------------------------------------------------------------------------

proof fn lemma_lanes_holding_bounds(active: Lanes, id: Seq<u8>)
    ensures
        forall|k: int|
            0 <= k < lanes_holding(active, id).len() ==> 0 <= #[trigger] lanes_holding(active, id)[k]
                < active.len() && active[lanes_holding(active, id)[k]] == Some(id),
        forall|i: int, j: int|
            0 <= i < j < lanes_holding(active, id).len() ==> lanes_holding(active, id)[i]
                < lanes_holding(active, id)[j],
    decreases active.len(),
{
    if active.len() > 0 {
        lemma_lanes_holding_bounds(active.drop_last(), id);
        let r = lanes_holding(active.drop_last(), id);
        assert forall|k: int| 0 <= k < r.len() implies 0 <= r[k] < active.len() - 1 && active[r[k]]
            == Some(id) by {
            assert(active.drop_last()[r[k]] == active[r[k]]);
        }
    }
}

fn holding(active: &Vec<Option<ObjectId>>, id: &ObjectId) -> (lanes: Vec<usize>)
    ensures
        as_ints(lanes@) == lanes_holding(lanes_view(active@), id@),
{
    let mut lanes: Vec<usize> = Vec::new();
    for i in 0..active.len()
        invariant
            as_ints(lanes@) == lanes_holding(lanes_view(active@).take(i as int), id@),
    {
        let ghost before = lanes_view(active@).take(i as int);
        assert(lanes_view(active@).take(i + 1).drop_last() == before);
        let here = match &active[i] {
            Some(other) => other.same(id),
            None => false,
        };
        let ghost old_lanes = lanes@;
        if here {
            lanes.push(i);
            assert(as_ints(lanes@) =~= as_ints(old_lanes).push(i as int));
        }
    }
    assert(lanes_view(active@).take(active.len() as int) == lanes_view(active@));
    lanes
}

fn taken(active: &Vec<Option<ObjectId>>) -> (lanes: Vec<usize>)
    ensures
        as_ints(lanes@) == lanes_taken(lanes_view(active@)),
{
    let mut lanes: Vec<usize> = Vec::new();
    for i in 0..active.len()
        invariant
            as_ints(lanes@) == lanes_taken(lanes_view(active@).take(i as int)),
    {
        assert(lanes_view(active@).take(i + 1).drop_last() == lanes_view(active@).take(i as int));
        let ghost old_lanes = lanes@;
        if active[i].is_some() {
            lanes.push(i);
            assert(as_ints(lanes@) =~= as_ints(old_lanes).push(i as int));
        }
    }
    assert(lanes_view(active@).take(active.len() as int) == lanes_view(active@));
    lanes
}

fn release_lanes(active: &mut Vec<Option<ObjectId>>, id: &ObjectId)
    ensures
        lanes_view(final(active)@) == release(lanes_view(old(active)@), id@),
{
    let ghost start = lanes_view(active@);
    let n = active.len();
    for i in 0..n
        invariant
            n == active.len(),
            active.len() == start.len(),
            forall|j: int|
                0 <= j < active.len() ==> #[trigger] slot_view(active@[j]) == if j < i {
                    if start[j] == Some(id@) {
                        None
                    } else {
                        start[j]
                    }
                } else {
                    start[j]
                },
    {
        assert(start[i as int] == slot_view(active@[i as int]));
        let here = match &active[i] {
            Some(other) => other.same(id),
            None => false,
        };
        if here {
            active.set(i, None);
        }
    }
    assert(lanes_view(active@) =~= release(start, id@));
}

proof fn lemma_first_free(active: Lanes)
    ensures
        0 <= first_free(active) <= active.len(),
        first_free(active) < active.len() ==> active[first_free(active)] is None,
        forall|j: int| 0 <= j < first_free(active) ==> active[j] is Some,
    decreases active.len(),
{
    if active.len() > 0 {
        lemma_first_free(active.drop_last());
        assert forall|j: int| 0 <= j < first_free(active) implies active[j] is Some by {
            if j < active.len() - 1 {
                assert(active.drop_last()[j] == active[j]);
            }
        }
    }
}

proof fn lemma_first_free_at(active: Lanes, i: int)
    requires
        0 <= i <= active.len(),
        forall|j: int| 0 <= j < i ==> active[j] is Some,
        i == active.len() || active[i] is None,
    ensures
        first_free(active) == i,
{
    lemma_first_free(active);
}

fn free_lane(active: &mut Vec<Option<ObjectId>>) -> (lane: usize)
    ensures
        (lane as int, lanes_view(final(active)@)) == claim_free(lanes_view(old(active)@)),
        lane < final(active).len(),
{
    let ghost start = lanes_view(active@);
    let mut i: usize = 0;
    while i < active.len()
        invariant
            i <= active.len(),
            start == lanes_view(active@),
            forall|j: int| 0 <= j < i ==> start[j] is Some,
        decreases active.len() - i,
    {
        assert(start[i as int] == slot_view(active@[i as int]));
        if active[i].is_none() {
            proof {
                lemma_first_free_at(start, i as int);
            }
            return i;
        }
        i = i + 1;
    }
    proof {
        lemma_first_free_at(start, i as int);
    }
    active.push(None);
    assert(lanes_view(active@) =~= start.push(None));
    active.len() - 1
}

proof fn lemma_first_holding(active: Lanes, id: Seq<u8>)
    ensures
        -1 <= first_holding(active, id) < active.len(),
        first_holding(active, id) >= 0 ==> active[first_holding(active, id)] == Some(id),
        first_holding(active, id) == -1 ==> forall|j: int|
            0 <= j < active.len() ==> active[j] != Some(id),
        forall|j: int| 0 <= j < first_holding(active, id) ==> active[j] != Some(id),
    decreases active.len(),
{
    if active.len() > 0 {
        lemma_first_holding(active.drop_last(), id);
        assert forall|j: int| 0 <= j < active.len() - 1 implies active.drop_last()[j]
            == active[j] by {}
    }
}

proof fn lemma_first_holding_at(active: Lanes, id: Seq<u8>, i: int)
    requires
        0 <= i <= active.len(),
        forall|j: int| 0 <= j < i ==> active[j] != Some(id),
        i == active.len() || active[i] == Some(id),
    ensures
        first_holding(active, id) == if i == active.len() {
            -1
        } else {
            i
        },
{
    lemma_first_holding(active, id);
}

fn joining(active: &Vec<Option<ObjectId>>, id: &ObjectId) -> (lane: Option<usize>)
    ensures
        match lane {
            Some(j) => j as int == first_holding(lanes_view(active@), id@),
            None => first_holding(lanes_view(active@), id@) == -1,
        },
{
    let ghost view = lanes_view(active@);
    for i in 0..active.len()
        invariant
            view == lanes_view(active@),
            forall|j: int| 0 <= j < i ==> view[j] != Some(id@),
    {
        let here = match &active[i] {
            Some(other) => other.same(id),
            None => false,
        };
        if here {
            proof {
                lemma_first_holding_at(view, id@, i as int);
            }
            return Some(i);
        }
    }
    proof {
        lemma_first_holding_at(view, id@, active.len() as int);
    }
    None
}

proof fn lemma_place_parents_len(active: Lanes, lane: int, parents: Seq<Seq<u8>>)
    requires
        0 <= lane < active.len(),
    ensures
        place_parents(active, lane, parents).0.len() >= active.len(),
        place_parents(active, lane, parents).1.len() == parents.len(),
        forall|k: int|
            0 <= k < parents.len() ==> 0 <= #[trigger] place_parents(active, lane, parents).1[k]
                < place_parents(active, lane, parents).0.len(),
    decreases parents.len(),
{
    if parents.len() > 0 {
        lemma_place_parents_len(active, lane, parents.drop_last());
        let (placed, _) = place_parents(active, lane, parents.drop_last());
        lemma_first_holding(placed, parents.last());
        lemma_first_free(placed);
        let (free, opened) = claim_free(placed);
        assert(opened.len() >= placed.len());
        let parent = parents.last();
        if parents.len() == 1 {
            assert(place_parents(active, lane, parents).0 == placed.update(lane, Some(parent)));
        } else if first_holding(placed, parent) >= 0 {
            assert(place_parents(active, lane, parents).0 == placed.update(
                first_holding(placed, parent),
                Some(parent),
            ));
        } else {
            assert(place_parents(active, lane, parents).0 == opened.update(free, Some(parent)));
        }
    }
}

fn trim_free(active: &mut Vec<Option<ObjectId>>)
    ensures
        lanes_view(final(active)@) == trim(lanes_view(old(active)@)),
{
    let ghost start = lanes_view(active@);
    while active.len() > 0 && active[active.len() - 1].is_none()
        invariant
            trim(lanes_view(active@)) == trim(start),
        decreases active.len(),
    {
        let ghost before = lanes_view(active@);
        active.pop();
        assert(lanes_view(active@) =~= before.drop_last());
    }
}

/// Lanes are assigned in one forward pass over the walk order. A commit takes the lane of
/// the first child still waiting for it, its first parent inherits that lane, and every
/// further parent opens or joins another. One pass sometimes crosses more lines than a
/// whole-graph solver would.
pub fn assign_lanes(commits: Vec<(ObjectId, Vec<ObjectId>)>) -> (rows: Vec<GraphRow>)
    ensures
        rows@.len() == commits@.len(),
        forall|i: int|
            0 <= i < rows@.len() ==> #[trigger] rows@[i]@ == lane_rows(commits_view(commits@)).0[i],
{
    let ghost input = commits_view(commits@);
    let mut active: Vec<Option<ObjectId>> = Vec::new();
    let mut rows: Vec<GraphRow> = Vec::new();
    let mut index: usize = 0;
    proof {
        assert(input.take(0) =~= Seq::<(Seq<u8>, Seq<Seq<u8>>)>::empty());
    }
    while index < commits.len()
        invariant
            index <= commits.len(),
            input == commits_view(commits@),
            rows@.len() == index,
            lane_rows(input.take(index as int)).1 == lanes_view(active@),
            lane_rows(input.take(index as int)).0.len() == index,
            forall|i: int|
                0 <= i < index ==> #[trigger] rows@[i]@ == lane_rows(input.take(index as int)).0[i],
        decreases commits.len() - index,
    {
        let commit = &commits[index].0;
        let parents = &commits[index].1;
        let ghost before = lanes_view(active@);
        proof {
            assert(input.take(index + 1).drop_last() == input.take(index as int));
            assert(input.take(index + 1).last() == input[index as int]);
        }
        let incoming = holding(&active, commit);
        let width = active.len();
        proof {
            assert(before.len() == width);
            lemma_lanes_holding_bounds(before, commit@);
        }
        release_lanes(&mut active, commit);
        assert(lanes_view(active@).len() == active@.len());
        assert(active@.len() == width);
        proof {
            if incoming.len() > 0 {
                assert(as_ints(incoming@)[0] == incoming@[0] as int);
            }
        }
        let lane = if incoming.len() > 0 {
            incoming[0]
        } else {
            free_lane(&mut active)
        };
        let ghost opened = lanes_view(active@);
        let through = taken(&active);
        let mut outgoing: Vec<usize> = Vec::new();
        proof {
            assert(parents@.take(0) =~= Seq::<ObjectId>::empty());
            assert(ids_view(parents@.take(0)) =~= Seq::<Seq<u8>>::empty());
        }
        for position in 0..parents.len()
            invariant
                lane < active.len(),
                lanes_view(active@).len() >= opened.len(),
                parents == &commits@[index as int].1,
                (lanes_view(active@), as_ints(outgoing@)) == place_parents(
                    opened,
                    lane as int,
                    ids_view(parents@.take(position as int)),
                ),
        {
            let parent = &parents[position];
            let ghost placed = lanes_view(active@);
            proof {
                assert(ids_view(parents@.take(position + 1)).drop_last() =~= ids_view(
                    parents@.take(position as int),
                ));
                assert(ids_view(parents@.take(position + 1)).last() == parent@);
            }
            let target = if position == 0 {
                lane
            } else {
                match joining(&active, parent) {
                    Some(joined) => joined,
                    None => free_lane(&mut active),
                }
            };
            proof {
                lemma_first_holding(placed, parent@);
            }
            let ghost old_outgoing = outgoing@;
            active.set(target, Some(parent.duplicate()));
            outgoing.push(target);
            assert(as_ints(outgoing@) =~= as_ints(old_outgoing).push(target as int));
            assert(lanes_view(active@) =~= place_parents(
                opened,
                lane as int,
                ids_view(parents@.take(position + 1)),
            ).0);
        }
        proof {
            assert(parents@.take(parents.len() as int) == parents@);
            assert(input[index as int].1 == ids_view(parents@));
        }
        trim_free(&mut active);
        rows.push(
            GraphRow { commit: commit.duplicate(), lane, incoming, outgoing, through },
        );
        index = index + 1;
    }
    proof {
        assert(input.take(commits.len() as int) == input);
    }
    rows
}


// ---------------------------------------------------------------------------------------
// What the rows promise a renderer
// ---------------------------------------------------------------------------------------

proof fn lemma_push_contains(s: Seq<int>, x: int)
    ensures
        forall|k: int| s.push(x).contains(k) <==> (s.contains(k) || k == x),
{
    assert forall|k: int| s.push(x).contains(k) <==> (s.contains(k) || k == x) by {
        if s.push(x).contains(k) {
            let j = choose|j: int| 0 <= j < s.push(x).len() && s.push(x)[j] == k;
            if j < s.len() {
                assert(s[j] == k);
            }
        }
        if s.contains(k) {
            let j = choose|j: int| 0 <= j < s.len() && s[j] == k;
            assert(s.push(x)[j] == k);
        }
        if k == x {
            assert(s.push(x)[s.len() as int] == k);
        }
    }
}

proof fn lemma_taken_members(active: Lanes)
    ensures
        forall|k: int|
            #[trigger] lanes_taken(active).contains(k) <==> 0 <= k < active.len() && active[k] is Some,
    decreases active.len(),
{
    if active.len() > 0 {
        let d = active.drop_last();
        lemma_taken_members(d);
        lemma_push_contains(lanes_taken(d), active.len() - 1);
        assert forall|k: int| 0 <= k < active.len() - 1 implies d[k] == active[k] by {}
        assert forall|k: int| lanes_taken(d).contains(k) implies k < active.len() - 1 by {}
    }
}

proof fn lemma_holding_members(active: Lanes, id: Seq<u8>)
    ensures
        forall|k: int|
            #[trigger] lanes_holding(active, id).contains(k) <==> 0 <= k < active.len() && active[k]
                == Some(id),
    decreases active.len(),
{
    if active.len() > 0 {
        let d = active.drop_last();
        lemma_holding_members(d, id);
        lemma_push_contains(lanes_holding(d, id), active.len() - 1);
        assert forall|k: int| 0 <= k < active.len() - 1 implies d[k] == active[k] by {}
        assert forall|k: int| lanes_holding(d, id).contains(k) implies k < active.len() - 1 by {}
    }
}

proof fn lemma_trim_taken(active: Lanes)
    ensures
        trim(active).len() <= active.len(),
        forall|k: int|
            (0 <= k < trim(active).len() && trim(active)[k] is Some) <==> (0 <= k < active.len()
                && active[k] is Some),
    decreases active.len(),
{
    if active.len() > 0 && active.last() is None {
        lemma_trim_taken(active.drop_last());
        assert forall|k: int| 0 <= k < active.len() - 1 implies active.drop_last()[k]
            == active[k] by {}
    }
}

/// What placing the parents does to which lanes are taken: the lanes they go to are taken
/// afterwards, and nothing else changes.
proof fn lemma_place_taken(opened: Lanes, lane: int, parents: Seq<Seq<u8>>)
    requires
        0 <= lane < opened.len(),
    ensures
        place_parents(opened, lane, parents).0.len() >= opened.len(),
        forall|k: int|
            0 <= k < place_parents(opened, lane, parents).0.len() && #[trigger] place_parents(
                opened,
                lane,
                parents,
            ).0[k] is Some ==> (k < opened.len() && opened[k] is Some) || place_parents(
                opened,
                lane,
                parents,
            ).1.contains(k),
        forall|k: int|
            0 <= k < opened.len() && #[trigger] opened[k] is Some ==> place_parents(
                opened,
                lane,
                parents,
            ).0[k] is Some,
        forall|k: int|
            #[trigger] place_parents(opened, lane, parents).1.contains(k) ==> 0 <= k
                < place_parents(opened, lane, parents).0.len() && place_parents(
                opened,
                lane,
                parents,
            ).0[k] is Some,
    decreases parents.len(),
{
    lemma_place_parents_len(opened, lane, parents);
    if parents.len() > 0 {
        lemma_place_taken(opened, lane, parents.drop_last());
        lemma_place_parents_len(opened, lane, parents.drop_last());
        let (placed, outgoing) = place_parents(opened, lane, parents.drop_last());
        let parent = parents.last();
        lemma_first_holding(placed, parent);
        lemma_first_free(placed);
        let target = if parents.len() == 1 {
            lane
        } else if first_holding(placed, parent) >= 0 {
            first_holding(placed, parent)
        } else {
            claim_free(placed).0
        };
        let widened = if parents.len() == 1 || first_holding(placed, parent) >= 0 {
            placed
        } else {
            claim_free(placed).1
        };
        let after = widened.update(target, Some(parent));
        assert(place_parents(opened, lane, parents) == (after, outgoing.push(target)));
        assert(0 <= target < widened.len());
        lemma_push_contains(outgoing, target);
        assert forall|k: int| 0 <= k < after.len() && after[k] is Some implies (k < opened.len()
            && opened[k] is Some) || outgoing.push(target).contains(k) by {
            if k != target {
                assert(after[k] == widened[k]);
                if k >= placed.len() {
                    assert(k == placed.len());
                    assert(widened[k] is None);
                }
                assert(placed[k] is Some);
            }
        }
        assert forall|k: int| 0 <= k < opened.len() && opened[k] is Some implies after[k] is Some by {
            assert(placed[k] is Some);
            if k != target {
                assert(after[k] == widened[k]);
            }
        }
        assert forall|k: int| outgoing.push(target).contains(k) implies 0 <= k < after.len()
            && after[k] is Some by {
            if k != target {
                assert(outgoing.contains(k));
                assert(placed[k] is Some);
                assert(after[k] == widened[k]);
            }
        }
    } else {
        assert(place_parents(opened, lane, parents) == (opened, Seq::<int>::empty()));
    }
}

/// Each row, seen from the lanes between rows: the lanes reaching it from above are those
/// carrying its commit and those crossing it, and the lanes leaving it below are those of its
/// parents and those crossing it.
proof fn lemma_step_lanes(active: Lanes, commit: Seq<u8>, parents: Seq<Seq<u8>>)
    ensures
        ({
            let (row, next) = lane_step(active, commit, parents);
            &&& forall|k: int|
                (0 <= k < active.len() && active[k] is Some) <==> (row.incoming.contains(k)
                    || row.through.contains(k))
            &&& forall|k: int|
                (0 <= k < next.len() && next[k] is Some) <==> (row.outgoing.contains(k)
                    || row.through.contains(k))
            &&& row.incoming.len() > 0 ==> row.lane == row.incoming[0]
            &&& parents.len() > 0 ==> row.outgoing[0] == row.lane
            &&& !row.through.contains(row.lane)
        }),
{
    let incoming = lanes_holding(active, commit);
    let released = release(active, commit);
    lemma_holding_members(active, commit);
    lemma_lanes_holding_bounds(active, commit);
    lemma_first_free(released);
    let (lane, opened) = if incoming.len() > 0 {
        (incoming[0], released)
    } else {
        claim_free(released)
    };
    assert(0 <= lane < opened.len());
    if incoming.len() > 0 {
        assert(incoming.contains(incoming[0]));
        assert(opened[lane] is None);
    }
    lemma_taken_members(opened);
    assert forall|k: int|
        (0 <= k < opened.len() && opened[k] is Some) <==> (0 <= k < active.len() && active[k]
            is Some && active[k] != Some(commit)) by {
        if released.len() <= k < opened.len() {
            assert(k == released.len());
        }
    }
    let (placed, outgoing) = place_parents(opened, lane, parents);
    lemma_place_taken(opened, lane, parents);
    lemma_trim_taken(placed);
    if parents.len() > 0 {
        lemma_place_first(opened, lane, parents);
    }
}

proof fn lemma_place_first(opened: Lanes, lane: int, parents: Seq<Seq<u8>>)
    requires
        parents.len() > 0,
    ensures
        place_parents(opened, lane, parents).1[0] == lane,
        place_parents(opened, lane, parents).1.len() == parents.len(),
    decreases parents.len(),
{
    let (placed, outgoing) = place_parents(opened, lane, parents.drop_last());
    if parents.len() > 1 {
        lemma_place_first(opened, lane, parents.drop_last());
    } else {
        assert(parents.drop_last().len() == 0);
        assert(place_parents(opened, lane, parents.drop_last()) == (opened, Seq::<int>::empty()));
    }
    assert(outgoing.push(0int)[0] == if outgoing.len() > 0 { outgoing[0] } else { 0int });
}

proof fn lemma_lanes_taken_increasing(active: Lanes)
    ensures
        forall|i: int, j: int|
            0 <= i < j < lanes_taken(active).len() ==> lanes_taken(active)[i] < lanes_taken(
                active,
            )[j],
        forall|k: int|
            0 <= k < lanes_taken(active).len() ==> 0 <= #[trigger] lanes_taken(active)[k]
                < active.len(),
    decreases active.len(),
{
    if active.len() > 0 {
        let d = active.drop_last();
        lemma_lanes_taken_increasing(d);
        let r = lanes_taken(d);
        if active.last() is Some {
            let t = r.push(active.len() - 1);
            assert(lanes_taken(active) == t);
            assert forall|i: int, j: int| 0 <= i < j < t.len() implies t[i] < t[j] by {
                if j == r.len() {
                    assert(r[i] < d.len());
                }
            }
            assert forall|k: int| 0 <= k < t.len() implies 0 <= #[trigger] t[k] < active.len() by {
                if k < r.len() {
                    assert(t[k] == r[k]);
                }
            }
        }
    }
}

/// What one row looks like, whatever the lanes above it.
proof fn lemma_step_shape(active: Lanes, commit: Seq<u8>, parents: Seq<Seq<u8>>)
    ensures
        ({
            let row = lane_step(active, commit, parents).0;
            &&& row.commit == commit
            &&& row.outgoing.len() == parents.len()
            &&& 0 <= row.lane
            &&& row.incoming.len() == 0 ==> forall|k: int|
                0 <= k < row.lane ==> #[trigger] row.through.contains(k)
            &&& forall|a: int, b: int|
                0 <= a < b < row.incoming.len() ==> row.incoming[a] < row.incoming[b]
            &&& forall|a: int, b: int|
                0 <= a < b < row.through.len() ==> row.through[a] < row.through[b]
        }),
{
    let incoming = lanes_holding(active, commit);
    let released = release(active, commit);
    lemma_holding_members(active, commit);
    lemma_lanes_holding_bounds(active, commit);
    lemma_first_free(released);
    let (lane, opened) = if incoming.len() > 0 {
        (incoming[0], released)
    } else {
        claim_free(released)
    };
    assert(0 <= lane < opened.len());
    lemma_taken_members(opened);
    lemma_lanes_taken_increasing(opened);
    lemma_place_parents_len(opened, lane, parents);
    if incoming.len() == 0 {
        assert forall|k: int| 0 <= k < lane implies #[trigger] lanes_taken(opened).contains(k) by {
            assert(released[k] is Some);
            assert(opened[k] == released[k]);
        }
    }
}

proof fn lemma_lane_rows_prefix(commits: Seq<(Seq<u8>, Seq<Seq<u8>>)>, k: int)
    requires
        0 <= k <= commits.len(),
    ensures
        lane_rows(commits).0.len() == commits.len(),
        forall|i: int|
            0 <= i < k ==> #[trigger] lane_rows(commits).0[i] == lane_rows(commits.take(k)).0[i],
    decreases commits.len(),
{
    if commits.len() > 0 {
        if k == commits.len() {
            assert(commits.take(k) == commits);
            lemma_lane_rows_prefix(commits.drop_last(), 0);
        } else {
            lemma_lane_rows_prefix(commits.drop_last(), k);
            assert(commits.drop_last().take(k) == commits.take(k));
        }
    }
}

/// Between two rows nothing is lost and nothing appears: the lanes leaving a row below, to
/// its parents and across it, are the lanes reaching the next row, to its commit and across
/// it. Each row also leads with the lane its commit was waited for on, and hands that same
/// lane to its first parent.
pub proof fn lemma_rows_connect(commits: Seq<(Seq<u8>, Seq<Seq<u8>>)>, i: int)
    requires
        0 <= i,
        i + 1 < commits.len(),
    ensures
        ({
            let rows = lane_rows(commits).0;
            &&& rows[i].outgoing.to_set() + rows[i].through.to_set() == rows[i
                + 1].incoming.to_set() + rows[i + 1].through.to_set()
            &&& rows[i].incoming.len() > 0 ==> rows[i].lane == rows[i].incoming[0]
            &&& commits[i].1.len() > 0 ==> rows[i].outgoing[0] == rows[i].lane
            &&& !rows[i].through.contains(rows[i].lane)
        }),
{
    lemma_lane_rows_prefix(commits, i + 2);
    let first = commits.take(i + 1);
    let second = commits.take(i + 2);
    assert(second.drop_last() == first);
    assert(first.drop_last() == commits.take(i));
    let before = lane_rows(commits.take(i)).1;
    let between = lane_rows(first).1;
    lemma_step_lanes(before, commits[i].0, commits[i].1);
    lemma_step_lanes(between, commits[i + 1].0, commits[i + 1].1);
    lemma_lane_rows_prefix(first, i + 1);
    lemma_lane_rows_prefix(commits.take(i), i);
    assert(first.take(i + 1) == first);
    assert(lane_rows(first).0[i] == lane_step(before, commits[i].0, commits[i].1).0);
    assert(lane_rows(second).0[i + 1] == lane_step(between, commits[i + 1].0, commits[i + 1].1).0);
    let rows = lane_rows(commits).0;
    assert(rows[i] == lane_rows(first).0[i]) by {
        lemma_lane_rows_prefix(commits, i + 1);
    }
    assert(rows[i + 1] == lane_rows(second).0[i + 1]);
    assert(rows[i].outgoing.to_set() + rows[i].through.to_set() =~= rows[i + 1].incoming.to_set()
        + rows[i + 1].through.to_set());
}


/// The shape of every row of the history graph: it is its commit's row, with one line out
/// per parent, the first in the commit's own lane. The commit sits in the lowest lane
/// waiting for it, or, when none is, in the lowest lane no line crosses the row in; no line
/// crosses in the commit's own lane; the lanes coming in and those crossing come lowest
/// first, each once.
pub proof fn lemma_row_shape(commits: Seq<(Seq<u8>, Seq<Seq<u8>>)>, i: int)
    requires
        0 <= i < commits.len(),
    ensures
        ({
            let row = lane_rows(commits).0[i];
            &&& row.commit == commits[i].0
            &&& row.outgoing.len() == commits[i].1.len()
            &&& commits[i].1.len() > 0 ==> row.outgoing[0] == row.lane
            &&& row.incoming.len() > 0 ==> row.lane == row.incoming[0]
            &&& row.incoming.len() == 0 ==> 0 <= row.lane && forall|k: int|
                0 <= k < row.lane ==> #[trigger] row.through.contains(k)
            &&& !row.through.contains(row.lane)
            &&& forall|a: int, b: int|
                0 <= a < b < row.incoming.len() ==> row.incoming[a] < row.incoming[b]
            &&& forall|a: int, b: int|
                0 <= a < b < row.through.len() ==> row.through[a] < row.through[b]
        }),
{
    let first = commits.take(i + 1);
    assert(first.drop_last() == commits.take(i));
    let before = lane_rows(commits.take(i)).1;
    lemma_lane_rows_prefix(commits, i + 1);
    lemma_lane_rows_prefix(first, i + 1);
    lemma_lane_rows_prefix(commits.take(i), i);
    assert(first.take(i + 1) == first);
    assert(lane_rows(first).0[i] == lane_step(before, commits[i].0, commits[i].1).0);
    lemma_step_lanes(before, commits[i].0, commits[i].1);
    lemma_step_shape(before, commits[i].0, commits[i].1);
}

proof fn lemma_first_holding_same(a: Lanes, b: Lanes, x: Seq<u8>)
    requires
        forall|k: int|
            (0 <= k < a.len() && a[k] == Some(x)) <==> (0 <= k < b.len() && b[k] == Some(x)),
    ensures
        first_holding(a, x) == first_holding(b, x),
{
    lemma_first_holding(a, x);
    let f = first_holding(a, x);
    if f >= 0 {
        assert(0 <= f < b.len() && b[f] == Some(x));
        assert forall|j: int| 0 <= j < f implies b[j] != Some(x) by {
            if 0 <= j < b.len() && b[j] == Some(x) {
                assert(a[j] == Some(x));
            }
        }
        lemma_first_holding_at(b, x, f);
    } else {
        assert forall|j: int| 0 <= j < b.len() implies b[j] != Some(x) by {
            if b[j] == Some(x) {
                assert(0 <= j < a.len() && a[j] == Some(x));
            }
        }
        lemma_first_holding_at(b, x, b.len() as int);
    }
}

/// Placing parents that are not `x`, from a lane that does not wait for `x`, leaves the
/// lanes waiting for `x` as they were.
proof fn lemma_place_keeps_holders(opened: Lanes, lane: int, parents: Seq<Seq<u8>>, x: Seq<u8>)
    requires
        0 <= lane < opened.len(),
        opened[lane] != Some(x),
        forall|q: int| 0 <= q < parents.len() ==> parents[q] != x,
    ensures
        forall|k: int|
            (0 <= k < place_parents(opened, lane, parents).0.len() && place_parents(
                opened,
                lane,
                parents,
            ).0[k] == Some(x)) <==> (0 <= k < opened.len() && opened[k] == Some(x)),
    decreases parents.len(),
{
    if parents.len() > 0 {
        let shorter = parents.drop_last();
        lemma_place_keeps_holders(opened, lane, shorter, x);
        lemma_place_parents_len(opened, lane, shorter);
        let placed = place_parents(opened, lane, shorter).0;
        let parent = parents.last();
        assert(parent == parents[parents.len() - 1]);
        if parents.len() == 1 {
        } else if first_holding(placed, parent) >= 0 {
            lemma_first_holding(placed, parent);
        } else {
            lemma_first_free(placed);
        }
    }
}

/// The lane a later parent (`p` from 1 on) goes out on, when a lane already waits for it:
/// the lowest such lane.
proof fn lemma_later_parent_placed(opened: Lanes, lane: int, parents: Seq<Seq<u8>>, p: int)
    requires
        0 <= lane < opened.len(),
        opened[lane] is None,
        1 <= p < parents.len(),
        parents.no_duplicates(),
        first_holding(opened, parents[p]) >= 0,
    ensures
        place_parents(opened, lane, parents).1[p] == first_holding(opened, parents[p]),
    decreases parents.len(),
{
    let shorter = parents.drop_last();
    lemma_place_parents_len(opened, lane, shorter);
    if p < parents.len() - 1 {
        assert(shorter.no_duplicates());
        assert(shorter[p] == parents[p]);
        lemma_later_parent_placed(opened, lane, shorter, p);
    } else {
        let parent = parents[p];
        assert forall|q: int| 0 <= q < shorter.len() implies shorter[q] != parent by {
            assert(shorter[q] == parents[q]);
        }
        lemma_place_keeps_holders(opened, lane, shorter, parent);
        let placed = place_parents(opened, lane, shorter).0;
        lemma_first_holding_same(placed, opened, parent);
        assert(parents.last() == parent);
    }
}

/// A merge's later parent joins a lane already waiting for it: when, under the rows above,
/// some lane waits for the `p`-th parent (`p` from 1 on) of row `i`'s commit, the row's line
/// to that parent goes out on the lowest such lane, and no lane is opened for it. The
/// parents are distinct and none is the commit itself, as git has them.
pub proof fn lemma_later_parent_joins(commits: Seq<(Seq<u8>, Seq<Seq<u8>>)>, i: int, p: int)
    requires
        0 <= i < commits.len(),
        1 <= p < commits[i].1.len(),
        commits[i].1.no_duplicates(),
        commits[i].1[p] != commits[i].0,
        first_holding(lane_rows(commits.take(i)).1, commits[i].1[p]) >= 0,
    ensures
        lane_rows(commits).0[i].outgoing[p] == first_holding(
            lane_rows(commits.take(i)).1,
            commits[i].1[p],
        ),
{
    let first = commits.take(i + 1);
    assert(first.drop_last() == commits.take(i));
    let before = lane_rows(commits.take(i)).1;
    lemma_lane_rows_prefix(commits, i + 1);
    lemma_lane_rows_prefix(first, i + 1);
    lemma_lane_rows_prefix(commits.take(i), i);
    assert(first.take(i + 1) == first);
    let commit = commits[i].0;
    let parents = commits[i].1;
    let parent = parents[p];
    assert(lane_rows(first).0[i] == lane_step(before, commit, parents).0);
    let incoming = lanes_holding(before, commit);
    let released = release(before, commit);
    lemma_holding_members(before, commit);
    lemma_lanes_holding_bounds(before, commit);
    lemma_first_free(released);
    let (lane, opened) = if incoming.len() > 0 {
        (incoming[0], released)
    } else {
        claim_free(released)
    };
    if incoming.len() > 0 {
        assert(incoming.contains(incoming[0]));
    }
    assert(0 <= lane < opened.len());
    assert(opened[lane] is None);
    assert forall|k: int|
        (0 <= k < opened.len() && opened[k] == Some(parent)) <==> (0 <= k < before.len() && before[k]
            == Some(parent)) by {
        if released.len() <= k < opened.len() {
            assert(k == released.len());
        }
    }
    lemma_first_holding_same(opened, before, parent);
    lemma_later_parent_placed(opened, lane, parents, p);
}

// ---------------------------------------------------------------------------------------
// Newest first, never a parent above its child
// ---------------------------------------------------------------------------------------

/// A commit as the walk found it.
#[derive(Clone)]
pub struct Commit {
    pub id: ObjectId,
    pub parents: Vec<ObjectId>,
    pub time: i64,
}

/// A commit by value: its name, its parents' names and its time.
pub type CommitView = (Seq<u8>, Seq<Seq<u8>>, int);

impl View for Commit {
    type V = CommitView;

    open spec fn view(&self) -> CommitView {
        (self.id@, ids_view(self.parents@), self.time as int)
    }
}

pub open spec fn history_view(commits: Seq<Commit>) -> Seq<CommitView> {
    commits.map_values(|commit: Commit| commit@)
}

/// Where the last commit named `id` stands, or -1: a later commit of the same name hides an
/// earlier one, as an insert into a map does.
pub open spec fn last_position(commits: Seq<CommitView>, id: Seq<u8>) -> int
    decreases commits.len(),
{
    if commits.len() == 0 {
        -1
    } else if commits.last().0 == id {
        commits.len() - 1
    } else {
        last_position(commits.drop_last(), id)
    }
}

/// Whether commit `child` names commit `parent` among its parents.
pub open spec fn feeds(commits: Seq<CommitView>, child: int, parent: int) -> bool {
    exists|slot: int|
        0 <= slot < commits[child].1.len() && last_position(commits, commits[child].1[slot])
            == parent
}

/// Whether a child of commit `j` is still to be placed.
pub open spec fn waits_on_child(commits: Seq<CommitView>, placed: Set<int>, j: int) -> bool {
    exists|child: int| 0 <= child < commits.len() && !placed.contains(child) && feeds(commits, child, j)
}

/// A commit that can be placed next: not yet placed, and with every child placed.
pub open spec fn is_ready(commits: Seq<CommitView>, placed: Set<int>, j: int) -> bool {
    0 <= j < commits.len() && !placed.contains(j) && !waits_on_child(commits, placed, j)
}

/// Whether commit `a` goes before commit `b` when both could: the newer first, then the
/// greater name, then the later position.
pub open spec fn goes_before(commits: Seq<CommitView>, a: int, b: int) -> bool {
    ||| commits[a].2 > commits[b].2
    ||| commits[a].2 == commits[b].2 && bytes_less(commits[b].0, commits[a].0)
    ||| commits[a].2 == commits[b].2 && commits[a].0 == commits[b].0 && a > b
}

/// `order` places commits, by position, newest first but never a parent before one of its
/// children: each is the one that goes first among those ready when it is placed, and when
/// it ends none is ready.
pub open spec fn newest_first(commits: Seq<CommitView>, order: Seq<int>) -> bool {
    &&& order.no_duplicates()
    &&& forall|k: int|
        0 <= k < order.len() ==> is_ready(commits, order.take(k).to_set(), #[trigger] order[k])
    &&& forall|k: int, j: int|
        0 <= k < order.len() && #[trigger] is_ready(commits, order.take(k).to_set(), j) && j
            != order[k] ==> goes_before(commits, #[trigger] order[k], j)
    &&& forall|j: int| !is_ready(commits, order.to_set(), j)
}

/// How many of commit `child`'s first `upto` parents are commit `j`.
pub open spec fn slots_into(commits: Seq<CommitView>, child: int, j: int, upto: int) -> nat
    decreases upto,
{
    if upto <= 0 {
        0
    } else {
        slots_into(commits, child, j, upto - 1) + if last_position(
            commits,
            commits[child].1[upto - 1],
        ) == j {
            1nat
        } else {
            0nat
        }
    }
}

/// How many parent entries of the first `upto` commits not yet placed name commit `j`.
pub open spec fn pending(commits: Seq<CommitView>, placed: Set<int>, j: int, upto: int) -> nat
    decreases upto,
{
    if upto <= 0 {
        0
    } else {
        pending(commits, placed, j, upto - 1) + if placed.contains(upto - 1) {
            0nat
        } else {
            slots_into(commits, upto - 1, j, commits[upto - 1].1.len() as int)
        }
    }
}

/// The parent entries of the first `upto` commits.
pub open spec fn parent_entries(commits: Seq<CommitView>, upto: int) -> nat
    decreases upto,
{
    if upto <= 0 {
        0
    } else {
        parent_entries(commits, upto - 1) + commits[upto - 1].1.len()
    }
}

proof fn lemma_slots_zero(commits: Seq<CommitView>, child: int, j: int, upto: int)
    requires
        0 <= upto <= commits[child].1.len(),
    ensures
        slots_into(commits, child, j, upto) <= upto,
        slots_into(commits, child, j, upto) == 0 <==> forall|slot: int|
            0 <= slot < upto ==> last_position(commits, commits[child].1[slot]) != j,
    decreases upto,
{
    if upto > 0 {
        lemma_slots_zero(commits, child, j, upto - 1);
    }
}

proof fn lemma_pending_zero(commits: Seq<CommitView>, placed: Set<int>, j: int, upto: int)
    requires
        0 <= upto <= commits.len(),
    ensures
        pending(commits, placed, j, upto) == 0 <==> forall|child: int|
            0 <= child < upto && !placed.contains(child) ==> !feeds(commits, child, j),
    decreases upto,
{
    if upto > 0 {
        lemma_pending_zero(commits, placed, j, upto - 1);
        let c = upto - 1;
        lemma_slots_zero(commits, c, j, commits[c].1.len() as int);
    }
}

proof fn lemma_pending_bound(commits: Seq<CommitView>, placed: Set<int>, j: int, upto: int)
    requires
        0 <= upto <= commits.len(),
    ensures
        pending(commits, placed, j, upto) <= parent_entries(commits, upto),
    decreases upto,
{
    if upto > 0 {
        lemma_pending_bound(commits, placed, j, upto - 1);
        lemma_slots_zero(commits, upto - 1, j, commits[upto - 1].1.len() as int);
    }
}

proof fn lemma_pending_place(
    commits: Seq<CommitView>,
    placed: Set<int>,
    c: int,
    j: int,
    upto: int,
)
    requires
        0 <= upto <= commits.len(),
        !placed.contains(c),
    ensures
        pending(commits, placed, j, upto) == pending(commits, placed.insert(c), j, upto) + if 0
            <= c < upto {
            slots_into(commits, c, j, commits[c].1.len() as int)
        } else {
            0
        },
    decreases upto,
{
    if upto > 0 {
        lemma_pending_place(commits, placed, c, j, upto - 1);
    }
}

proof fn lemma_ready_by_count(commits: Seq<CommitView>, placed: Set<int>, j: int)
    requires
        0 <= j < commits.len(),
    ensures
        is_ready(commits, placed, j) <==> !placed.contains(j) && pending(
            commits,
            placed,
            j,
            commits.len() as int,
        ) == 0,
{
    lemma_pending_zero(commits, placed, j, commits.len() as int);
}

fn last_position_of(commits: &Vec<Commit>, id: &ObjectId) -> (r: Option<usize>)
    ensures
        match r {
            Some(i) => i as int == last_position(history_view(commits@), id@),
            None => last_position(history_view(commits@), id@) == -1,
        },
{
    let ghost all = history_view(commits@);
    let mut i = commits.len();
    while i > 0
        invariant
            i <= commits.len(),
            all == history_view(commits@),
            last_position(all, id@) == last_position(all.take(i as int), id@),
        decreases i,
    {
        assert(all.take(i as int).drop_last() == all.take(i - 1));
        assert(all.take(i as int).last() == commits@[i - 1]@);
        if commits[i - 1].id.same(id) {
            return Some(i - 1);
        }
        i = i - 1;
    }
    None
}

proof fn lemma_last_position_bounds(commits: Seq<CommitView>, id: Seq<u8>)
    ensures
        -1 <= last_position(commits, id) < commits.len(),
    decreases commits.len(),
{
    if commits.len() > 0 {
        lemma_last_position_bounds(commits.drop_last(), id);
    }
}

/// The commits that go before all the others ready, among the indices in `ready`.
fn first_to_go(commits: &Vec<Commit>, ready: &Vec<usize>) -> (best: usize)
    requires
        ready.len() > 0,
        forall|k: int| 0 <= k < ready.len() ==> ready@[k] < commits.len(),
    ensures
        best < ready.len(),
        forall|k: int|
            0 <= k < ready.len() && k != best && ready@[k] != ready@[best as int] ==> goes_before(
                history_view(commits@),
                ready@[best as int] as int,
                ready@[k] as int,
            ),
{
    let ghost all = history_view(commits@);
    let mut best: usize = 0;
    for k in 1..ready.len()
        invariant
            best < k <= ready.len(),
            ready.len() > 0,
            all == history_view(commits@),
            forall|m: int| 0 <= m < ready.len() ==> ready@[m] < commits.len(),
            forall|m: int|
                0 <= m < k && m != best && ready@[m] != ready@[best as int] ==> goes_before(
                    all,
                    ready@[best as int] as int,
                    ready@[m] as int,
                ),
    {
        let a = &commits[ready[k]];
        let b = &commits[ready[best]];
        assert(all[ready@[k as int] as int] == a@);
        assert(all[ready@[best as int] as int] == b@);
        let better = a.time > b.time || (a.time == b.time && b.id.less(&a.id)) || (a.time
            == b.time && a.id.same(&b.id) && ready[k] > ready[best]);
        if better {
            proof {
                lemma_goes_before_transitive(all, ready@[k as int] as int, ready@[best as int] as int);
            }
            best = k;
        } else if ready[k] != ready[best] {
            proof {
                lemma_goes_before_total(all, ready@[k as int] as int, ready@[best as int] as int);
            }
        }
    }
    best
}

proof fn lemma_bytes_less_total(a: Seq<u8>, b: Seq<u8>)
    ensures
        a == b || bytes_less(a, b) || bytes_less(b, a),
        !(bytes_less(a, b) && bytes_less(b, a)),
        !bytes_less(a, a),
    decreases a.len(),
{
    if a.len() > 0 && b.len() > 0 && a[0] == b[0] {
        lemma_bytes_less_total(a.drop_first(), b.drop_first());
        if a.drop_first() == b.drop_first() {
            assert(a == seq![a[0]] + a.drop_first());
            assert(b == seq![b[0]] + b.drop_first());
        }
    }
    if a.len() > 0 {
        lemma_bytes_less_total(a.drop_first(), a.drop_first());
    }
}

proof fn lemma_bytes_less_transitive(a: Seq<u8>, b: Seq<u8>, c: Seq<u8>)
    requires
        bytes_less(a, b),
        bytes_less(b, c),
    ensures
        bytes_less(a, c),
    decreases a.len(),
{
    if a.len() > 0 && b.len() > 0 && c.len() > 0 && a[0] == b[0] && b[0] == c[0] {
        lemma_bytes_less_transitive(a.drop_first(), b.drop_first(), c.drop_first());
    }
}

proof fn lemma_goes_before_total(commits: Seq<CommitView>, a: int, b: int)
    requires
        !(commits[a].2 > commits[b].2 || (commits[a].2 == commits[b].2 && bytes_less(
            commits[b].0,
            commits[a].0,
        )) || (commits[a].2 == commits[b].2 && commits[a].0 == commits[b].0 && a > b)),
        a != b,
    ensures
        goes_before(commits, b, a),
{
    lemma_bytes_less_total(commits[a].0, commits[b].0);
}

/// Every index in `ready` that `best` went before, the new `best` goes before too.
proof fn lemma_goes_before_transitive(commits: Seq<CommitView>, a: int, b: int)
    ensures
        forall|c: int|
            goes_before(commits, a, b) && goes_before(commits, b, c) ==> goes_before(
                commits,
                a,
                c,
            ),
{
    assert forall|c: int|
        goes_before(commits, a, b) && goes_before(commits, b, c) implies goes_before(
            commits,
            a,
            c,
        ) by {
        if commits[a].2 == commits[b].2 && commits[b].2 == commits[c].2 {
            if bytes_less(commits[b].0, commits[a].0) && bytes_less(commits[c].0, commits[b].0) {
                lemma_bytes_less_transitive(commits[c].0, commits[b].0, commits[a].0);
            }
        }
    }
}

proof fn lemma_slots_mono(commits: Seq<CommitView>, child: int, j: int, s: int, t: int)
    requires
        0 <= s <= t,
    ensures
        slots_into(commits, child, j, s) <= slots_into(commits, child, j, t),
    decreases t - s,
{
    if s < t {
        lemma_slots_mono(commits, child, j, s, t - 1);
    }
}

proof fn lemma_pending_mono(commits: Seq<CommitView>, placed: Set<int>, j: int, u: int, v: int)
    requires
        0 <= u <= v,
    ensures
        pending(commits, placed, j, u) <= pending(commits, placed, j, v),
    decreases v - u,
{
    if u < v {
        lemma_pending_mono(commits, placed, j, u, v - 1);
    }
}

proof fn lemma_distinct_bound(order: Seq<int>, n: int)
    requires
        0 <= n,
        order.no_duplicates(),
        forall|k: int| 0 <= k < order.len() ==> 0 <= #[trigger] order[k] < n,
    ensures
        order.len() <= n,
{
    order.unique_seq_to_set();
    lemma_int_range(0, n);
    assert(order.to_set().subset_of(set_int_range(0, n)));
    lemma_len_subset(order.to_set(), set_int_range(0, n));
}

/// For each commit, how many parent entries of the commits name it.
fn pending_counts(commits: &Vec<Commit>) -> (counts: Vec<usize>)
    requires
        parent_entries(history_view(commits@), commits.len() as int) <= usize::MAX,
    ensures
        counts.len() == commits.len(),
        forall|j: int|
            0 <= j < commits.len() ==> counts@[j] == pending(
                history_view(commits@),
                Set::empty(),
                j,
                commits.len() as int,
            ),
{
    let ghost all = history_view(commits@);
    let n = commits.len();
    let mut counts: Vec<usize> = Vec::new();
    for j in 0..n
        invariant
            counts.len() == j,
            forall|m: int| 0 <= m < j ==> counts@[m] == 0,
    {
        counts.push(0);
    }
    for c in 0..n
        invariant
            n == commits.len(),
            all == history_view(commits@),
            counts.len() == n,
            parent_entries(all, n as int) <= usize::MAX,
            forall|j: int| 0 <= j < n ==> counts@[j] == pending(all, Set::empty(), j, c as int),
    {
        let parents = &commits[c].parents;
        assert(all[c as int].1 == ids_view(parents@));
        for s in 0..parents.len()
            invariant
                n == commits.len(),
                c < n,
                all == history_view(commits@),
                parents == commits@[c as int].parents,
                all[c as int].1 == ids_view(parents@),
                counts.len() == n,
                parent_entries(all, n as int) <= usize::MAX,
                forall|j: int|
                    0 <= j < n ==> counts@[j] == pending(all, Set::empty(), j, c as int)
                        + slots_into(all, c as int, j, s as int),
        {
            assert(all[c as int].1[s as int] == parents@[s as int]@);
            proof {
                lemma_last_position_bounds(all, parents@[s as int]@);
            }
            match last_position_of(commits, &parents[s]) {
                Some(p) => {
                    proof {
                        lemma_slots_mono(all, c as int, p as int, s + 1, parents.len() as int);
                        lemma_pending_mono(all, Set::empty(), p as int, c + 1, n as int);
                        lemma_pending_bound(all, Set::empty(), p as int, n as int);
                    }
                    counts.set(p, counts[p] + 1);
                },
                None => {},
            }
        }
    }
    counts
}

/// Orders the commits newest first, but never a parent before one of its children: of the
/// commits whose children are all placed, the newest goes next, the greater name and then the
/// later position breaking ties. A parent is found by the last commit of its name.
pub fn date_topological_order(commits: Vec<Commit>) -> (ordered: Vec<(ObjectId, Vec<ObjectId>)>)
    requires
        parent_entries(history_view(commits@), commits.len() as int) <= usize::MAX,
    ensures
        exists|order: Seq<int>|
            {
                &&& newest_first(history_view(commits@), order)
                &&& commits_view(ordered@) == order.map_values(
                    |k: int| (history_view(commits@)[k].0, history_view(commits@)[k].1),
                )
            },
{
    let ghost all = history_view(commits@);
    let n = commits.len();
    let mut counts = pending_counts(&commits);
    let mut placed: Vec<bool> = Vec::new();
    let mut pool: Vec<usize> = Vec::new();
    for j in 0..n
        invariant
            n == commits.len(),
            all == history_view(commits@),
            counts.len() == n,
            placed.len() == j,
            forall|m: int| 0 <= m < j ==> !placed@[m],
            forall|k: int| 0 <= k < pool.len() ==> pool@[k] < j,
            pool@.no_duplicates(),
            forall|m: int| 0 <= m < j ==> (pool@.contains(m as usize) <==> counts@[m] == 0),
    {
        placed.push(false);
        if counts[j] == 0 {
            pool.push(j);
        }
    }
    let ghost mut order: Seq<int> = Seq::empty();
    let mut ordered: Vec<(ObjectId, Vec<ObjectId>)> = Vec::new();
    assert(order.to_set() =~= Set::<int>::empty());
    while pool.len() > 0
        invariant
            n == commits.len(),
            all == history_view(commits@),
            counts.len() == n,
            placed.len() == n,
            order.len() <= n,
            order.no_duplicates(),
            forall|k: int| 0 <= k < order.len() ==> 0 <= #[trigger] order[k] < n,
            forall|m: int| 0 <= m < n ==> (placed@[m] <==> order.to_set().contains(m)),
            forall|m: int| 0 <= m < n ==> counts@[m] == pending(all, order.to_set(), m, n as int),
            forall|m: int| 0 <= m < n && placed@[m] ==> counts@[m] == 0,
            forall|k: int| 0 <= k < pool.len() ==> pool@[k] < n,
            pool@.no_duplicates(),
            forall|m: int|
                0 <= m < n ==> (pool@.contains(m as usize) <==> (!placed@[m] && counts@[m] == 0)),
            forall|k: int|
                0 <= k < order.len() ==> is_ready(all, order.take(k).to_set(), #[trigger] order[k]),
            forall|k: int, j: int|
                0 <= k < order.len() && #[trigger] is_ready(all, order.take(k).to_set(), j) && j
                    != order[k] ==> goes_before(all, #[trigger] order[k], j),
            commits_view(ordered@) == order.map_values(|k: int| (all[k].0, all[k].1)),
        decreases n - order.len(),
    {
        let best = first_to_go(&commits, &pool);
        let c = pool[best];
        let ghost before = order.to_set();
        proof {
            lemma_ready_by_count(all, before, c as int);
            assert forall|j: int| #[trigger] is_ready(all, before, j) && j != c implies goes_before(
                all,
                c as int,
                j,
            ) by {
                lemma_ready_by_count(all, before, j);
                assert(pool@.contains(j as usize));
                let k = choose|k: int| 0 <= k < pool.len() && pool@[k] == j as usize;
            }
        }
        proof {
            assert(pool@.contains(c));
            assert(!before.contains(c as int));
        }
        pool.remove(best);
        placed.set(c, true);
        let id = commits[c].id.duplicate();
        let parent_ids = duplicate_ids(&commits[c].parents);
        let ghost old_ordered = ordered@;
        ordered.push((id, parent_ids));
        let ghost old_order = order;
        proof {
            order = order.push(c as int);
            assert(commits_view(ordered@) =~= commits_view(old_ordered).push((all[c as int].0, all[c as int].1)));
            assert(order.map_values(|k: int| (all[k].0, all[k].1)) =~= old_order.map_values(
                |k: int| (all[k].0, all[k].1),
            ).push((all[c as int].0, all[c as int].1)));
            assert(order.to_set() =~= before.insert(c as int));
            assert forall|k: int| 0 <= k < old_order.len() implies order.take(k) == old_order.take(k) by {
                assert(order.take(k) =~= old_order.take(k));
            }
            assert(order.take(old_order.len() as int) =~= old_order);
            lemma_distinct_bound(order, n as int);
            assert forall|m: int| 0 <= m < n implies counts@[m] == pending(all, order.to_set(), m, n as int)
                + slots_into(all, c as int, m, all[c as int].1.len() as int) by {
                lemma_pending_place(all, before, c as int, m, n as int);
            }
        }
        let parents = &commits[c].parents;
        assert(all[c as int].1 == ids_view(parents@));
        for s in 0..parents.len()
            invariant
                n == commits.len(),
                c < n,
                all == history_view(commits@),
                parents == commits@[c as int].parents,
                all[c as int].1 == ids_view(parents@),
                counts.len() == n,
                placed.len() == n,
                forall|m: int| 0 <= m < n ==> (placed@[m] <==> order.to_set().contains(m)),
                forall|m: int|
                    0 <= m < n ==> counts@[m] == pending(all, order.to_set(), m, n as int) + (
                    slots_into(all, c as int, m, parents.len() as int) - slots_into(
                        all,
                        c as int,
                        m,
                        s as int,
                    )),
                forall|m: int|
                    0 <= m < n && placed@[m] ==> counts@[m] == 0 && pending(
                        all,
                        order.to_set(),
                        m,
                        n as int,
                    ) == 0 && slots_into(all, c as int, m, parents.len() as int) == 0,
                forall|k: int| 0 <= k < pool.len() ==> pool@[k] < n,
                pool@.no_duplicates(),
                forall|m: int|
                    0 <= m < n ==> (pool@.contains(m as usize) <==> (!placed@[m] && counts@[m]
                        == 0)),
        {
            assert(all[c as int].1[s as int] == parents@[s as int]@);
            proof {
                lemma_last_position_bounds(all, parents@[s as int]@);
            }
            match last_position_of(&commits, &parents[s]) {
                Some(p) => {
                    proof {
                        lemma_slots_mono(all, c as int, p as int, s + 1, parents.len() as int);
                    }
                    counts.set(p, counts[p] - 1);
                    if counts[p] == 0 {
                        pool.push(p);
                    }
                },
                None => {},
            }
        }
    }
    proof {
        assert forall|j: int| !is_ready(all, order.to_set(), j) by {
            if 0 <= j < n {
                lemma_ready_by_count(all, order.to_set(), j);
                if is_ready(all, order.to_set(), j) {
                    assert(pool@.contains(j as usize));
                }
            }
        }
        assert(newest_first(all, order));
    }
    ordered
}

/// The commits a stash's extra parents name: a stash is one thing to the reader and three
/// commits to git (the work tree, the index it was taken with, and any untracked files).
/// Only its first parent is history.
pub open spec fn stash_extras(commits: Seq<CommitView>, stashes: Seq<Seq<u8>>) -> Set<Seq<u8>> {
    Set::new(
        |id: Seq<u8>|
            exists|i: int, k: int|
                0 <= i < commits.len() && stashes.contains(commits[i].0) && 1 <= k
                    < commits[i].1.len() && #[trigger] commits[i].1[k] == id,
    )
}

/// A commit with its extra parents left off when it is a stash.
pub open spec fn first_parent_only(commit: CommitView, stashes: Seq<Seq<u8>>) -> CommitView {
    if stashes.contains(commit.0) && commit.1.len() > 1 {
        (commit.0, commit.1.take(1), commit.2)
    } else {
        commit
    }
}

/// The commits the history shows: each stash down to its first parent, and the commits its
/// other parents name left out.
pub open spec fn shown_commits(commits: Seq<CommitView>, hidden: Set<Seq<u8>>, stashes: Seq<Seq<u8>>) -> Seq<CommitView>
    decreases commits.len(),
{
    if commits.len() == 0 {
        Seq::empty()
    } else {
        let earlier = shown_commits(commits.drop_last(), hidden, stashes);
        if hidden.contains(commits.last().0) {
            earlier
        } else {
            earlier.push(first_parent_only(commits.last(), stashes))
        }
    }
}

proof fn lemma_parent_entries_prefix(commits: Seq<CommitView>, k: int)
    requires
        0 <= k <= commits.len(),
    ensures
        parent_entries(commits, k) == parent_entries(commits.take(k), k),
    decreases k,
{
    if k > 0 {
        lemma_parent_entries_prefix(commits, k - 1);
        lemma_parent_entries_prefix(commits.take(k), k - 1);
        assert(commits.take(k).take(k - 1) == commits.take(k - 1));
    }
}

proof fn lemma_shown_entries(commits: Seq<CommitView>, hidden: Set<Seq<u8>>, stashes: Seq<Seq<u8>>)
    ensures
        parent_entries(shown_commits(commits, hidden, stashes), shown_commits(commits, hidden, stashes).len() as int)
            <= parent_entries(commits, commits.len() as int),
    decreases commits.len(),
{
    if commits.len() > 0 {
        let rest = commits.drop_last();
        lemma_shown_entries(rest, hidden, stashes);
        lemma_parent_entries_prefix(commits, commits.len() - 1);
        assert(commits.take(commits.len() - 1) == rest);
        let earlier = shown_commits(rest, hidden, stashes);
        if !hidden.contains(commits.last().0) {
            let grown = earlier.push(first_parent_only(commits.last(), stashes));
            lemma_parent_entries_prefix(grown, earlier.len() as int);
            assert(grown.take(earlier.len() as int) == earlier);
        }
    }
}

/// Leaves out what a stash hides: its extra parents, and the commits they name.
pub fn hide_stash_parents(commits: Vec<Commit>, stashes: &Vec<ObjectId>) -> (shown: Vec<Commit>)
    ensures
        history_view(shown@) == shown_commits(
            history_view(commits@),
            stash_extras(history_view(commits@), ids_view(stashes@)),
            ids_view(stashes@),
        ),
{
    let ghost all = history_view(commits@);
    let ghost stash_ids = ids_view(stashes@);
    let ghost extras = stash_extras(all, stash_ids);
    let mut hidden: Vec<ObjectId> = Vec::new();
    for i in 0..commits.len()
        invariant
            all == history_view(commits@),
            stash_ids == ids_view(stashes@),
            forall|x: Seq<u8>|
                ids_view(hidden@).contains(x) <==> exists|c: int, k: int|
                    0 <= c < i && stash_ids.contains(all[c].0) && 1 <= k < all[c].1.len()
                        && #[trigger] all[c].1[k] == x,
    {
        let commit = &commits[i];
        assert(all[i as int] == commit@);
        let is_stash = crate::git::position_of(stashes, &commit.id).is_some();
        proof {
            if stash_ids.contains(all[i as int].0) {
                let k = choose|k: int| 0 <= k < stash_ids.len() && stash_ids[k] == all[i as int].0;
                assert(stashes@[k]@ == commit.id@);
            }
        }
        if is_stash && commit.parents.len() > 1 {
            assert(stash_ids.contains(all[i as int].0)) by {
                let k = choose|k: int| 0 <= k < stashes@.len() && stashes@[k]@ == commit.id@;
                assert(stash_ids[k] == all[i as int].0);
            }
            for k in 1..commit.parents.len()
                invariant
                    all == history_view(commits@),
                    stash_ids == ids_view(stashes@),
                    all[i as int] == commit@,
                    stash_ids.contains(all[i as int].0),
                    1 <= k <= commit.parents.len(),
                    forall|x: Seq<u8>|
                        ids_view(hidden@).contains(x) <==> (exists|c: int, m: int|
                            0 <= c < i && stash_ids.contains(all[c].0) && 1 <= m < all[c].1.len()
                                && #[trigger] all[c].1[m] == x) || (exists|m: int|
                            1 <= m < k && #[trigger] all[i as int].1[m] == x),
            {
                let ghost before = ids_view(hidden@);
                hidden.push(commit.parents[k].duplicate());
                proof {
                    assert(ids_view(hidden@) == before.push(commit.parents@[k as int]@));
                    assert(all[i as int].1[k as int] == commit.parents@[k as int]@);
                    assert forall|x: Seq<u8>|
                        ids_view(hidden@).contains(x) <==> (exists|c: int, m: int|
                            0 <= c < i && stash_ids.contains(all[c].0) && 1 <= m < all[c].1.len()
                                && #[trigger] all[c].1[m] == x) || (exists|m: int|
                            1 <= m < k + 1 && #[trigger] all[i as int].1[m] == x) by {
                        if ids_view(hidden@).contains(x) {
                            let j = choose|j: int| 0 <= j < ids_view(hidden@).len() && ids_view(hidden@)[j] == x;
                            if j < before.len() {
                                assert(before.contains(x));
                            }
                        }
                        if exists|m: int| 1 <= m < k + 1 && #[trigger] all[i as int].1[m] == x {
                            let m = choose|m: int| 1 <= m < k + 1 && #[trigger] all[i as int].1[m] == x;
                            if m < k {
                                assert(before.contains(x));
                            } else {
                                assert(ids_view(hidden@)[before.len() as int] == x);
                            }
                        }
                        if before.contains(x) {
                            let j = choose|j: int| 0 <= j < before.len() && before[j] == x;
                            assert(ids_view(hidden@)[j] == x);
                        }
                    }
                }
            }
        }
    }
    assert forall|x: Seq<u8>| ids_view(hidden@).contains(x) <==> extras.contains(x) by {}
    let mut shown: Vec<Commit> = Vec::new();
    let mut rest = commits;
    let count = rest.len();
    let mut taken: usize = 0;
    while rest.len() > 0
        invariant
            all.len() == count,
            taken <= count,
            history_view(rest@) == all.skip(taken as int),
            stash_ids == ids_view(stashes@),
            forall|x: Seq<u8>| ids_view(hidden@).contains(x) <==> extras.contains(x),
            history_view(shown@) == shown_commits(all.take(taken as int), extras, stash_ids),
        decreases rest.len(),
    {
        let ghost before_rest = history_view(rest@);
        assert(before_rest.len() == rest@.len());
        assert(taken < count);
        let commit = rest.remove(0);
        proof {
            assert(before_rest[0] == all[taken as int]);
            assert(history_view(rest@) =~= before_rest.drop_first());
            assert(all.take(taken + 1).drop_last() == all.take(taken as int));
            assert(all.take(taken + 1).last() == commit@);
        }
        let is_hidden = crate::git::position_of(&hidden, &commit.id).is_some();
        proof {
            if extras.contains(commit@.0) {
                assert(ids_view(hidden@).contains(commit@.0));
                let k = choose|k: int| 0 <= k < ids_view(hidden@).len() && ids_view(hidden@)[k] == commit@.0;
                assert(hidden@[k]@ == commit.id@);
            }
            if is_hidden {
                let k = choose|k: int| 0 <= k < hidden@.len() && hidden@[k]@ == commit.id@;
                assert(ids_view(hidden@)[k] == commit@.0);
            }
        }
        if !is_hidden {
            let is_stash = crate::git::position_of(stashes, &commit.id).is_some();
            proof {
                if stash_ids.contains(commit@.0) {
                    let k = choose|k: int| 0 <= k < stash_ids.len() && stash_ids[k] == commit@.0;
                    assert(stashes@[k]@ == commit.id@);
                }
                if is_stash {
                    let k = choose|k: int| 0 <= k < stashes@.len() && stashes@[k]@ == commit.id@;
                    assert(stash_ids[k] == commit@.0);
                }
            }
            let ghost before = history_view(shown@);
            if is_stash && commit.parents.len() > 1 {
                let mut first: Vec<ObjectId> = Vec::new();
                first.push(commit.parents[0].duplicate());
                assert(ids_view(first@) =~= ids_view(commit.parents@).take(1));
                shown.push(Commit { id: commit.id, parents: first, time: commit.time });
            } else {
                shown.push(commit);
            }
            assert(history_view(shown@) =~= before.push(first_parent_only(commit@, stash_ids)));
        }
        taken = taken + 1;
    }
    assert(all.take(taken as int) == all);
    shown
}

/// Lays out the history as the graph draws it: the walk's commits with what stashes hide
/// left out, newest first but never a parent above one of its children, each in its lane.
pub fn arrange(commits: Vec<Commit>, stashes: &Vec<ObjectId>) -> (rows: Vec<GraphRow>)
    requires
        parent_entries(history_view(commits@), commits.len() as int) <= usize::MAX,
    ensures
        ({
            let shown = shown_commits(
                history_view(commits@),
                stash_extras(history_view(commits@), ids_view(stashes@)),
                ids_view(stashes@),
            );
            exists|order: Seq<int>|
                {
                    &&& newest_first(shown, order)
                    &&& rows@.len() == order.len()
                    &&& forall|i: int|
                        0 <= i < rows@.len() ==> #[trigger] rows@[i]@ == lane_rows(
                            order.map_values(|k: int| (shown[k].0, shown[k].1)),
                        ).0[i]
                }
        }),
{
    let ghost all = history_view(commits@);
    let ghost stash_ids = ids_view(stashes@);
    let shown = hide_stash_parents(commits, stashes);
    proof {
        lemma_shown_entries(all, stash_extras(all, stash_ids), stash_ids);
    }
    let ghost shown_view = history_view(shown@);
    let ordered = date_topological_order(shown);
    let ghost ordered_view = commits_view(ordered@);
    let rows = assign_lanes(ordered);
    proof {
        let order = choose|order: Seq<int>|
            {
                &&& newest_first(shown_view, order)
                &&& ordered_view == order.map_values(
                    |k: int| (shown_view[k].0, shown_view[k].1),
                )
            };
        assert(ordered_view.len() == order.len());
        assert(rows@.len() == order.len());
    }
    rows
}

/// Whether object names run strictly upwards in std's order of byte arrays.
pub open spec fn strictly_ascending(ids: Seq<Seq<u8>>) -> bool {
    forall|i: int, j: int| 0 <= i < j < ids.len() ==> bytes_less(ids[i], ids[j])
}

/// Where the walk starts: every commit a reference names and every stash, each once, in
/// order. `refs/stash` names only the newest stash; the rest live in its reflog and would
/// otherwise be unreachable from any reference.
pub fn tips(referenced: Vec<ObjectId>, stashes: &Vec<ObjectId>) -> (starts: Vec<ObjectId>)
    ensures
        strictly_ascending(ids_view(starts@)),
        ids_view(starts@).to_set() == ids_view(referenced@).to_set() + ids_view(stashes@).to_set(),
{
    let mut all = referenced;
    let ghost from_refs = ids_view(all@);
    for i in 0..stashes.len()
        invariant
            ids_view(all@) == from_refs + ids_view(stashes@).take(i as int),
    {
        let ghost before = ids_view(all@);
        all.push(stashes[i].duplicate());
        assert(ids_view(all@) =~= before.push(stashes@[i as int]@));
        assert(ids_view(stashes@).take(i + 1) =~= ids_view(stashes@).take(i as int).push(stashes@[i as int]@));
    }
    assert(ids_view(stashes@).take(stashes.len() as int) == ids_view(stashes@));
    let ghost everything = ids_view(all@);
    assert(everything.to_set() =~= from_refs.to_set() + ids_view(stashes@).to_set()) by {
        assert forall|x: Seq<u8>| everything.contains(x) <==> (from_refs.contains(x) || ids_view(stashes@).contains(x)) by {
            if everything.contains(x) {
                let k = choose|k: int| 0 <= k < everything.len() && everything[k] == x;
                if k < from_refs.len() {
                    assert(from_refs[k] == x);
                } else {
                    assert(ids_view(stashes@)[k - from_refs.len()] == x);
                }
            }
            if from_refs.contains(x) {
                let k = choose|k: int| 0 <= k < from_refs.len() && from_refs[k] == x;
                assert(everything[k] == x);
            }
            if ids_view(stashes@).contains(x) {
                let k = choose|k: int| 0 <= k < ids_view(stashes@).len() && ids_view(stashes@)[k] == x;
                assert(everything[from_refs.len() + k] == x);
            }
        }
    }
    let mut starts: Vec<ObjectId> = Vec::new();
    for i in 0..all.len()
        invariant
            everything == ids_view(all@),
            strictly_ascending(ids_view(starts@)),
            ids_view(starts@).to_set() == everything.take(i as int).to_set(),
    {
        let id = &all[i];
        let mut p: usize = 0;
        while p < starts.len() && starts[p].less(id)
            invariant
                p <= starts.len(),
                forall|k: int| 0 <= k < p ==> bytes_less(#[trigger] ids_view(starts@)[k], id@),
            decreases starts.len() - p,
        {
            p = p + 1;
        }
        let ghost before = ids_view(starts@);
        proof {
            everything.take(i as int).lemma_push_to_set_commute(id@);
            assert(everything.take(i + 1) == everything.take(i as int).push(id@));
        }
        if p < starts.len() && starts[p].same(id) {
            assert(before.to_set().contains(id@)) by {
                assert(before[p as int] == id@);
            }
            assert(ids_view(starts@).to_set() =~= everything.take(i + 1).to_set());
        } else {
            starts.insert(p, id.duplicate());
            proof {
                assert(ids_view(starts@) =~= before.insert(p as int, id@));
                if p < before.len() {
                    lemma_bytes_less_total(before[p as int], id@);
                }
                assert forall|a: int, b: int| 0 <= a < b < ids_view(starts@).len() implies bytes_less(
                    ids_view(starts@)[a],
                    ids_view(starts@)[b],
                ) by {
                    let v = ids_view(starts@);
                    if b < p {
                    } else if b == p {
                    } else if a < p {
                        assert(v[b] == before[b - 1]);
                        if a < p {
                            lemma_bytes_less_transitive(before[a], id@, before[p as int]);
                            if b - 1 > p {
                                lemma_bytes_less_transitive(before[a], before[p as int], before[b - 1]);
                            }
                        }
                    } else if a == p {
                        if b - 1 > p {
                            lemma_bytes_less_transitive(id@, before[p as int], before[b - 1]);
                        }
                    } else {
                        assert(v[a] == before[a - 1] && v[b] == before[b - 1]);
                    }
                }
                before.insert_ensures(p as int, id@);
                let v = ids_view(starts@);
                assert forall|x: Seq<u8>| v.contains(x) <==> (before.contains(x) || x == id@) by {
                    if v.contains(x) {
                        let k = choose|k: int| 0 <= k < v.len() && v[k] == x;
                        if k < p {
                            assert(before[k] == x);
                        } else if k > p {
                            assert(before[k - 1] == x);
                        }
                    }
                    if before.contains(x) {
                        let k = choose|k: int| 0 <= k < before.len() && before[k] == x;
                        if k < p {
                            assert(v[k] == x);
                        } else {
                            assert(v[k + 1] == x);
                        }
                    }
                    if x == id@ {
                        assert(v[p as int] == x);
                    }
                }
                assert(ids_view(starts@).to_set() =~= everything.take(i + 1).to_set());
            }
        }
    }
    assert(everything.take(all.len() as int) == everything);
    starts
}

} // verus!
