use gg::git::history::{arrange, assign_lanes, date_topological_order, hide_stash_parents, tips, Commit};
use gg::git::ObjectId;
use std::collections::HashMap;

fn id(byte: u8) -> ObjectId {
    let mut bytes = vec![0u8; 19];
    bytes.push(byte);
    ObjectId { bytes }
}

fn commit(byte: u8, parents: &[u8], time: i64) -> Commit {
    Commit {
        id: id(byte),
        parents: parents.iter().copied().map(id).collect(),
        time,
    }
}

fn last_byte(id: &ObjectId) -> u8 {
    id.bytes[19]
}

#[test]
fn a_linear_history_stays_in_one_lane() {
    let rows = assign_lanes(vec![(id(3), vec![id(2)]), (id(2), vec![id(1)]), (id(1), vec![])]);

    assert_eq!(rows.iter().map(|row| row.lane).collect::<Vec<_>>(), [0, 0, 0]);
    assert!(rows.iter().all(|row| row.through.is_empty()));
    assert_eq!(rows[0].incoming, Vec::<usize>::new());
    assert_eq!(rows[0].outgoing, [0]);
    assert_eq!(rows[2].incoming, [0]);
    assert_eq!(rows[2].outgoing, Vec::<usize>::new());
}

#[test]
fn a_merge_opens_a_lane_and_the_join_closes_it() {
    let rows = assign_lanes(vec![
        (id(4), vec![id(3), id(2)]),
        (id(3), vec![id(1)]),
        (id(2), vec![id(1)]),
        (id(1), vec![]),
    ]);

    assert_eq!(rows[0].lane, 0);
    assert_eq!(rows[0].outgoing, [0, 1], "the second parent opens lane 1");

    assert_eq!(rows[1].lane, 0);
    assert_eq!(rows[1].through, [1], "lane 1 crosses this row untouched");

    assert_eq!(rows[2].lane, 1);
    assert_eq!(
        rows[2].outgoing,
        [1],
        "a first parent always inherits its child's lane, which keeps trunks straight"
    );

    assert_eq!(rows[3].lane, 0);
    assert_eq!(
        rows[3].incoming,
        [0, 1],
        "both lanes reached the base, so both converge on it"
    );
}

#[test]
fn a_lane_is_reused_once_its_last_child_is_placed() {
    let rows = assign_lanes(vec![
        (id(5), vec![id(3)]),
        (id(4), vec![id(3)]),
        (id(3), vec![]),
        (id(2), vec![]),
    ]);

    assert_eq!(rows[0].lane, 0);
    assert_eq!(rows[1].lane, 1, "a second tip needs a second lane");
    assert_eq!(rows[2].lane, 0);
    assert_eq!(rows[2].incoming, [0, 1], "both children converge here");
    assert_eq!(rows[3].lane, 0, "every lane is free again");
}

#[test]
fn equal_timestamps_never_put_a_parent_above_its_child() {
    // Every commit made in the same second.
    let ordered = date_topological_order(vec![
        commit(1, &[], 100),
        commit(2, &[1], 100),
        commit(3, &[2], 100),
        commit(4, &[2], 100),
        commit(5, &[4], 100),
        commit(6, &[3, 5], 100),
        commit(7, &[2], 100),
        commit(8, &[6, 7], 100),
        commit(9, &[8], 100),
    ]);

    let seen_at: HashMap<u8, usize> = ordered
        .iter()
        .enumerate()
        .map(|(index, (id, _))| (last_byte(id), index))
        .collect();

    for (child, parents) in &ordered {
        for parent in parents {
            assert!(
                seen_at[&last_byte(child)] < seen_at[&last_byte(parent)],
                "a parent was emitted before its child"
            );
        }
    }

    assert_eq!(ordered[0].0.bytes, id(9).bytes, "the tip comes first");
}

#[test]
fn newer_commits_come_first_when_topology_allows() {
    let ordered = date_topological_order(vec![
        commit(1, &[], 10),
        commit(2, &[1], 20),
        commit(3, &[1], 30),
    ]);

    assert_eq!(
        ordered.iter().map(|(id, _)| last_byte(id)).collect::<Vec<_>>(),
        [3, 2, 1]
    );
}

#[test]
fn ties_in_time_go_to_the_greater_name() {
    let ordered = date_topological_order(vec![commit(1, &[], 5), commit(2, &[], 5), commit(3, &[], 5)]);
    assert_eq!(
        ordered.iter().map(|(id, _)| last_byte(id)).collect::<Vec<_>>(),
        [3, 2, 1]
    );
}

#[test]
fn a_parent_outside_the_walk_is_kept_but_not_waited_for() {
    let ordered = date_topological_order(vec![commit(2, &[1], 5), commit(3, &[2], 1)]);
    assert_eq!(
        ordered.iter().map(|(id, _)| last_byte(id)).collect::<Vec<_>>(),
        [3, 2]
    );
    assert_eq!(ordered[1].1.len(), 1);
    assert_eq!(last_byte(&ordered[1].1[0]), 1);
}

#[test]
fn lanes_connect_from_row_to_row() {
    let rows = assign_lanes(vec![
        (id(6), vec![id(5), id(4)]),
        (id(5), vec![id(3)]),
        (id(4), vec![id(3), id(2)]),
        (id(3), vec![id(1)]),
        (id(2), vec![id(1)]),
        (id(1), vec![]),
    ]);
    for pair in rows.windows(2) {
        let mut below: Vec<usize> = pair[0].outgoing.clone();
        below.extend(pair[0].through.iter().copied());
        below.sort();
        below.dedup();
        let mut above: Vec<usize> = pair[1].incoming.clone();
        above.extend(pair[1].through.iter().copied());
        above.sort();
        above.dedup();
        assert_eq!(below, above);
    }
}

#[test]
fn a_stash_hides_its_index_commit() {
    // 5 is a stash whose second parent 4 records the index; 3 is what it was made on.
    let shown = hide_stash_parents(
        vec![commit(5, &[3, 4], 9), commit(4, &[3], 8), commit(3, &[], 7)],
        &vec![id(5)],
    );
    assert_eq!(
        shown.iter().map(|c| last_byte(&c.id)).collect::<Vec<_>>(),
        [5, 3]
    );
    assert_eq!(shown[0].parents.len(), 1);
    assert_eq!(last_byte(&shown[0].parents[0]), 3);
}

#[test]
fn arranging_a_history_orders_and_lays_it_out() {
    let rows = arrange(
        vec![commit(1, &[], 10), commit(3, &[2], 30), commit(2, &[1], 20)],
        &vec![],
    );
    assert_eq!(rows.iter().map(|row| last_byte(&row.commit)).collect::<Vec<_>>(), [3, 2, 1]);
    assert!(rows.iter().all(|row| row.lane == 0));
}

#[test]
fn the_walk_starts_at_every_tip_once_in_order() {
    let starts = tips(vec![id(7), id(2), id(7)], &vec![id(5), id(2)]);
    assert_eq!(starts.iter().map(last_byte).collect::<Vec<_>>(), [2, 5, 7]);
}

#[test]
fn every_row_keeps_its_shape() {
    let rows = assign_lanes(vec![
        (id(9), vec![id(7), id(8)]),
        (id(8), vec![id(6)]),
        (id(7), vec![id(5)]),
        (id(6), vec![id(5)]),
        (id(5), vec![]),
    ]);
    for row in &rows {
        if !row.outgoing.is_empty() {
            assert_eq!(row.outgoing[0], row.lane);
        }
        if let Some(first) = row.incoming.first() {
            assert_eq!(*first, row.lane);
        } else {
            assert!((0..row.lane).all(|lane| row.through.contains(&lane)));
        }
        assert!(!row.through.contains(&row.lane));
        assert!(row.incoming.windows(2).all(|pair| pair[0] < pair[1]));
        assert!(row.through.windows(2).all(|pair| pair[0] < pair[1]));
    }
    assert_eq!(rows.iter().map(|row| row.outgoing.len()).collect::<Vec<_>>(), vec![2, 1, 1, 1, 0]);
}
