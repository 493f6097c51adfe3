use lseq::node::{Node, DEFAULT_BOUNDARY, INITIAL_WIDTH};
use lseq::random::{random_bool, random_range};
use lseq::{Id, NodeId};
use rand::{thread_rng, Rng};
use std::collections::BTreeSet;

fn assert_within_widths(id: &Id, w0: u64) {
    for (k, &ix) in id.indices().iter().enumerate() {
        assert!(k < 60, "{:?} is too deep", id);
        assert!(ix < w0 << k, "index {} at level {} of {:?}", ix, k, id);
    }
}

fn assert_minted(node: &Node, id: &Id) {
    assert_eq!(id.node, node.id);
    assert!(id.depth() >= 1);
    assert!(*id.indices().last().unwrap() > 0);
    assert_within_widths(id, INITIAL_WIDTH);
}

#[test]
fn sentinels_have_their_paths() {
    let node = Node::new(NodeId::new(7));
    assert_eq!(node.begin(), Id::new(vec![0], NodeId::new(7)));
    assert_eq!(node.end(), Id::new(vec![15], NodeId::new(7)));
    assert!(node.begin() < node.end());
    assert_eq!(node.node_id().as_u32(), 7);
}

#[test]
fn basic_chain_is_monotone_and_distinct() {
    let mut node = Node::new(NodeId::new(0));
    let end = node.end();
    let mut prev = node.begin();
    let mut seen = BTreeSet::new();
    for _ in 0..100 {
        let next = node.new_id_with_bounds(&prev, &end);
        assert!(prev < next && next < end);
        assert_minted(&node, &next);
        assert!(seen.insert(next.clone()));
        prev = next;
    }
}

#[test]
fn left_dense_inserts_stay_between() {
    for _ in 0..20 {
        let mut node = Node::new(NodeId::new(0));
        let first = node.begin();
        let mut prev = node.end();
        for _ in 0..200 {
            let next = node.new_id_with_bounds(&first, &prev);
            assert!(first < next && next < prev);
            assert_minted(&node, &next);
            prev = next;
        }
    }
}

#[test]
fn right_dense_inserts_stay_between() {
    for _ in 0..20 {
        let mut node = Node::new(NodeId::new(0));
        let last = node.end();
        let mut prev = node.begin();
        for _ in 0..200 {
            let next = node.new_id_with_bounds(&prev, &last);
            assert!(prev < next && next < last);
            assert_minted(&node, &next);
            prev = next;
        }
    }
}

#[test]
fn random_interleave_keeps_order() {
    let mut rng = thread_rng();
    for _ in 0..20 {
        let mut node = Node::new(NodeId::new(0));
        let mut ids: Vec<Id> = vec![node.begin(), node.end()];
        for _ in 0..200 {
            let i = rng.gen_range(0, ids.len() - 1);
            let j = rng.gen_range(i + 1, ids.len());
            let r = node.new_id_with_bounds(&ids[i], &ids[j]);
            assert!(ids[i] < r && r < ids[j]);
            assert_minted(&node, &r);
            if let Err(at) = ids.binary_search(&r) {
                ids.insert(at, r);
            }
        }
        for w in ids.windows(2) {
            assert!(w[0] < w[1]);
        }
    }
}

#[test]
fn equal_index_ordering() {
    let short = Id::new(vec![5, 32, 100], NodeId::new(2));
    let long = Id::new(vec![5, 32, 100, 2], NodeId::new(2));
    let long_other = Id::new(vec![5, 32, 100, 2], NodeId::new(3));
    let before = Id::new(vec![4, 40], NodeId::new(0));
    assert!(short < long);
    assert!(before < short);
    assert!(long < long_other);
    assert_eq!(short.partial_cmp(&long), Some(std::cmp::Ordering::Less));
    assert_eq!(long.partial_cmp(&long.clone()), Some(std::cmp::Ordering::Equal));
}

fn append_text(node: &mut Node, buffer: &mut Vec<(Id, char)>, text: &str) -> Vec<(Id, char)> {
    let mut prev = match buffer.last() {
        Some((id, _)) => id.clone(),
        None => node.begin(),
    };
    let mut added = Vec::new();
    for c in text.chars() {
        let id = node.new_id_with_bounds(&prev, &prev);
        buffer.push((id.clone(), c));
        added.push((id.clone(), c));
        prev = id;
    }
    added
}

fn merge(buffer: &mut Vec<(Id, char)>, ops: &[(Id, char)]) {
    for (id, c) in ops {
        if let Err(i) = buffer.binary_search_by(|(p, _)| p.cmp(id)) {
            buffer.insert(i, (id.clone(), *c));
        }
    }
}

fn text_of(buffer: &[(Id, char)]) -> String {
    buffer.iter().map(|(_, c)| *c).collect()
}

#[test]
fn replicas_converge_by_identifier_order() {
    let mut n0 = Node::new(NodeId::new(0));
    let mut n1 = Node::new(NodeId::new(1));
    let mut b0 = Vec::new();
    let mut b1 = Vec::new();
    let ops0 = append_text(&mut n0, &mut b0, "Hello");
    let ops1 = append_text(&mut n1, &mut b1, ", world!");
    merge(&mut b0, &ops1);
    merge(&mut b1, &ops0);
    assert_eq!(text_of(&b0), text_of(&b1));
    assert_eq!(b0.len(), 13);
    let mut sorted: Vec<Id> = b0.iter().map(|(id, _)| id.clone()).collect();
    sorted.sort();
    let ids: Vec<Id> = b0.iter().map(|(id, _)| id.clone()).collect();
    assert_eq!(sorted, ids);
}

#[test]
fn equal_bounds_at_full_level_go_deeper() {
    let mut node = Node::new(NodeId::new(4));
    let full = Id::new(vec![15], NodeId::new(4));
    let r = node.new_id_with_bounds(&full, &full);
    assert_eq!(r.depth(), 2);
    assert_eq!(r.index(0), 15);
    assert!(r.index(1) > 0 && r.index(1) < 32);
    assert!(full < r);
}

#[test]
fn equal_bounds_with_room_replace_last_level() {
    let mut node = Node::new(NodeId::new(4));
    let low = Id::new(vec![3, 7], NodeId::new(4));
    let r = node.new_id_with_bounds(&low, &low);
    assert_eq!(r.depth(), 2);
    assert_eq!(r.index(0), 3);
    assert!(r.index(1) > 7 && r.index(1) < 32);
}

#[test]
fn adjacent_indices_descend_below_lower_bound() {
    let mut node = Node::new(NodeId::new(1));
    let low = Id::new(vec![3], NodeId::new(1));
    let high = Id::new(vec![4], NodeId::new(1));
    let r = node.new_id_with_bounds(&low, &high);
    assert_eq!(r.depth(), 2);
    assert_eq!(r.index(0), 3);
    assert!(low < r && r < high);
}

#[test]
fn bounds_with_no_room_still_give_a_greater_id() {
    let mut node = Node::new(NodeId::new(0));
    let low = Id::new(vec![5], NodeId::new(0));
    let high = Id::new(vec![5, 0], NodeId::new(3));
    let r = node.new_id_with_bounds(&low, &high);
    assert!(low < r);
    let twin = Id::new(vec![5], NodeId::new(9));
    let r = node.new_id_with_bounds(&low, &twin);
    assert!(low < r);
}

#[test]
fn other_replica_bounds_are_respected() {
    let mut node = Node::new(NodeId::new(1));
    let low = Id::new(vec![2, 9], NodeId::new(5));
    let high = Id::new(vec![2, 9, 4], NodeId::new(0));
    for _ in 0..200 {
        let r = node.new_id_with_bounds(&low, &high);
        assert!(low < r && r < high);
        assert_eq!(r.node, NodeId::new(1));
    }
}

#[test]
fn pick_index_stays_in_the_favoured_window() {
    let mut node = Node::new(NodeId::new(0));
    for level in 0..8 {
        let up = node.level_direction(level);
        for _ in 0..200 {
            let n = node.pick_index(level, 100, 1000);
            assert!(100 < n && n < 1000);
            if up {
                assert!(n + DEFAULT_BOUNDARY + 1 > 1000);
            } else {
                assert!(n < 100 + DEFAULT_BOUNDARY);
            }
        }
    }
}

#[test]
fn narrow_pick_has_one_choice() {
    let mut node = Node::new(NodeId::new(0));
    for level in 0..5 {
        assert_eq!(node.pick_index(level, 6, 8), 7);
        assert_eq!(node.pick_index(level, u64::MAX - 2, u64::MAX), u64::MAX - 1);
    }
}

#[test]
fn random_range_reaches_more_than_one_value() {
    let mut seen = BTreeSet::new();
    for _ in 0..200 {
        let r = random_range(0, 100);
        assert!(r > 0 && r < 100);
        seen.insert(r);
    }
    assert!(seen.len() > 1);
    let mut heads = false;
    let mut tails = false;
    for _ in 0..200 {
        if random_bool() {
            heads = true;
        } else {
            tails = true;
        }
    }
    assert!(heads && tails);
}

#[test]
fn widths_double_per_level() {
    let node = Node::new(NodeId::new(0));
    assert_eq!(node.width_at(0), 16);
    assert_eq!(node.width_at(3), 128);
    assert_eq!(node.width_at(59), 16u64 << 59);
}

#[test]
fn directions_persist_across_allocations() {
    let mut node = Node::new(NodeId::new(0));
    let before: Vec<bool> = (0..6).map(|k| node.level_direction(k)).collect();
    let mut prev = node.begin();
    for _ in 0..100 {
        prev = node.new_id_with_bounds(&prev, &prev);
    }
    let after: Vec<bool> = (0..6).map(|k| node.level_direction(k)).collect();
    assert_eq!(before, after);
}
