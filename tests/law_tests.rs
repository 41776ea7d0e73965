use flo_rope::{AttributedRope, PullRope, RopeAction, RopeConcatenator, Utf8Rope};

fn cells_of(rope: &AttributedRope<i32, i64>) -> Vec<i32> {
    rope.read_cells(0..rope.len())
}

#[test]
fn replace_at_end_appends() {
    let mut rope = AttributedRope::<_, ()>::from(vec![1, 2, 3]);
    rope.replace(3..3, vec![4, 5]);
    assert_eq!(rope.read_cells(0..10), vec![1, 2, 3, 4, 5]);
    assert_eq!(rope.len(), 5);
}

#[test]
fn replace_past_end_is_clamped() {
    let mut rope = AttributedRope::<_, ()>::from(vec![1, 2, 3]);
    rope.replace(7..9, vec![4]);
    assert_eq!(rope.read_cells(0..10), vec![1, 2, 3, 4]);
}

#[test]
fn replace_pure_insertion() {
    let mut rope = AttributedRope::<_, ()>::from(vec![1, 2, 3]);
    rope.replace(1..1, vec![7, 8]);
    assert_eq!(rope.read_cells(0..5), vec![1, 7, 8, 2, 3]);
}

#[test]
fn replace_pure_deletion() {
    let mut rope = AttributedRope::<_, ()>::from(vec![1, 2, 3, 4]);
    rope.replace(1..3, vec![]);
    assert_eq!(rope.read_cells(0..4), vec![1, 4]);
    assert_eq!(rope.len(), 2);
}

#[test]
fn replace_everything_leaves_empty_rope() {
    let mut rope = AttributedRope::<_, ()>::from(vec![1, 2, 3, 4]);
    rope.split_at(2);
    rope.replace(0..4, vec![]);
    assert_eq!(rope.len(), 0);
    assert!(rope.read_attributes(0) == (&(), 0..0));
}

#[test]
fn long_leaf_is_split_before_insertion() {
    let mut rope = AttributedRope::<i32, i64>::from((0..100).collect());
    rope.replace(10..10, vec![-1]);
    rope.replace(50..52, vec![-2, -3, -4]);
    let mut expected: Vec<i32> = (0..100).collect();
    expected.insert(10, -1);
    expected.splice(50..52, vec![-2, -3, -4]);
    assert_eq!(cells_of(&rope), expected);
    assert!(rope.read_attributes(0) == (&0, 0..102));
}

#[test]
fn set_attributes_whole_then_partial_then_reassembled() {
    let mut rope = AttributedRope::<_, i64>::from(vec![1, 2, 3, 4, 5, 6]);
    rope.set_attributes(0..6, 3);
    assert!(rope.read_attributes(0) == (&3, 0..6));

    rope.set_attributes(2..4, 5);
    assert!(rope.read_attributes(0) == (&3, 0..2));
    assert!(rope.read_attributes(2) == (&5, 2..4));
    assert!(rope.read_attributes(4) == (&3, 4..6));

    rope.set_attributes(2..3, 3);
    rope.set_attributes(3..4, 3);
    let whole = AttributedRope::<_, i64>::from(vec![1, 2, 3, 4, 5, 6]);
    let mut whole = whole;
    whole.set_attributes(0..6, 3);
    assert!(rope.equals(&whole));
    assert!(rope.read_attributes(0).0 == &3);
}

#[test]
fn read_attributes_extent_holds_position() {
    let mut rope = AttributedRope::<_, i64>::from(vec![1, 2, 3, 4, 5, 6, 7, 8, 9]);
    rope.set_attributes(2..5, 1);
    rope.replace_attributes(6..7, vec![10, 11], 2);
    rope.set_attributes(0..1, 1);
    let len = rope.len();
    let attrs = [1, 0, 1, 1, 1, 0, 2, 2, 0, 0];
    for pos in 0..len {
        let (attr, extent) = rope.read_attributes(pos);
        assert!(extent.start <= pos && pos < extent.end && extent.end <= len);
        assert_eq!(*attr, attrs[pos]);
        for q in extent.clone() {
            assert_eq!(attrs[q], *attr);
        }
    }
    assert!(rope.read_attributes(100) == rope.read_attributes(len - 1));
}

#[test]
fn pending_changes_account_for_length() {
    let mut rope = PullRope::from(AttributedRope::<u8, ()>::from(vec![1, 2, 3, 4, 5, 6, 7, 8]), || {});
    rope.replace(2..4, vec![9, 9, 9]);
    rope.replace(7..8, vec![]);
    rope.replace(0..1, vec![7, 7]);
    let growth: i64 = rope
        .changes()
        .iter()
        .map(|c| (c.new_range.len() as i64) - (c.original_range.len() as i64))
        .sum();
    assert_eq!(growth, (rope.len() as i64) - 8);
    let changes = rope.changes();
    for i in 1..changes.len() {
        assert!(changes[i - 1].new_range.end <= changes[i].new_range.start);
        assert!(changes[i - 1].original_range.end <= changes[i].original_range.start);
    }
}

#[test]
fn pulled_changes_replay_on_a_copy() {
    let start: Vec<u8> = vec![1, 2, 3, 4, 5, 6, 7, 8];
    let mut rope = PullRope::from(AttributedRope::<u8, i64>::from(start.clone()), || {});
    let mut copy = AttributedRope::<u8, i64>::from(start);

    rope.replace(1..3, vec![20, 21, 22]);
    rope.set_attributes(5..7, 4);
    rope.replace(0..0, vec![30]);

    for action in rope.pull_changes() {
        copy.edit(action);
    }
    let len = rope.len();
    assert_eq!(copy.read_cells(0..len), rope.read_cells(0..len));
    for pos in 0..len {
        assert_eq!(copy.read_attributes(pos).0, rope.read_attributes(pos).0);
    }
    assert!(rope.pull_changes().is_empty());
}

#[test]
fn pulled_attribute_runs_come_back_to_front() {
    let mut rope = PullRope::from(AttributedRope::<u8, i64>::new(), || {});
    rope.replace_attributes(0..0, vec![1, 2], 1);
    rope.replace_attributes(2..2, vec![3], 2);
    let pulled = rope.pull_changes();
    assert_eq!(
        pulled,
        vec![
            RopeAction::ReplaceAttributes(0..0, vec![3], 2),
            RopeAction::ReplaceAttributes(0..0, vec![1, 2], 1),
        ]
    );
}

#[test]
fn runs_rebuild_an_equal_rope() {
    let mut rope = AttributedRope::<_, i64>::from(vec![1, 2, 3, 4, 5, 6]);
    rope.set_attributes(1..3, 7);
    rope.replace_attributes(4..5, vec![8, 9], 2);
    let runs = rope.to_runs();
    assert_eq!(runs, vec![(vec![1], 0), (vec![2, 3], 7), (vec![4], 0), (vec![8, 9], 2), (vec![6], 0)]);
    let rebuilt = AttributedRope::from_runs(runs);
    assert!(rebuilt.equals(&rope));
    assert!(rope.equals(&rebuilt));
}

#[test]
fn lossy_text_replaces_invalid_bytes() {
    let rope = AttributedRope::<u8, ()>::from(vec![b'a', 0xff, b'b']);
    assert_eq!(rope.to_string_lossy(), "a\u{fffd}b");
}

#[test]
fn concatenator_moves_right_side_actions() {
    let mut concatenator = RopeConcatenator::<u8, ()>::new();
    let left = concatenator.send_left(vec![RopeAction::Replace(0..0, vec![1, 2, 3])]);
    assert_eq!(left, vec![RopeAction::Replace(0..0, vec![1, 2, 3])]);
    let right = concatenator.send_right(vec![RopeAction::SetAttributes(1..2, ()), RopeAction::Replace(0..1, vec![])]);
    assert_eq!(right, vec![RopeAction::SetAttributes(4..5, ()), RopeAction::Replace(3..4, vec![])]);
    let left = concatenator.send_left(vec![RopeAction::Replace(0..2, vec![])]);
    assert_eq!(left, vec![RopeAction::Replace(0..2, vec![])]);
    let right = concatenator.send_right(vec![RopeAction::ReplaceAttributes(0..0, vec![5], ())]);
    assert_eq!(right, vec![RopeAction::ReplaceAttributes(1..1, vec![5], ())]);
}

#[test]
fn cursor_reads_across_leaves() {
    let mut rope = AttributedRope::<_, ()>::from(vec![1, 2, 3, 4, 5, 6, 7, 8]);
    rope.split_at(3);
    rope.split_at(5);
    let mut cursor = rope.iter_cells(2..7);
    let mut read = Vec::new();
    while let Some(cell) = cursor.next() {
        read.push(cell);
    }
    assert_eq!(read, vec![3, 4, 5, 6, 7]);
    assert_eq!(cursor.next(), None);
}

#[test]
fn edit_running_past_a_change_marks_it() {
    let mut rope = PullRope::from(AttributedRope::<u8, i64>::new(), || {});
    rope.mark_change(5..10, 10, false);
    rope.mark_change(10..20, 10, true);
    let changes = rope.changes();
    assert_eq!(changes.len(), 2);
    assert_eq!(changes[0].original_range, 5..10);
    assert_eq!(changes[0].new_range, 5..15);
    assert!(changes[0].changed_attributes);
    assert_eq!(changes[1].original_range, 10..15);
    assert_eq!(changes[1].new_range, 15..20);
    assert!(changes[1].changed_attributes);
}

#[test]
fn replay_keeps_attributes_set_past_a_change() {
    let start: Vec<u8> = (0..20).collect();
    let mut rope = PullRope::from(AttributedRope::<u8, i64>::from(start.clone()), || {});
    let mut copy = AttributedRope::<u8, i64>::from(start);
    rope.replace(5..10, vec![50, 51, 52, 53, 54, 55, 56, 57, 58, 59]);
    rope.set_attributes(10..20, 7);
    for action in rope.pull_changes() {
        copy.edit(action);
    }
    let len = rope.len();
    assert_eq!(copy.read_cells(0..len), rope.read_cells(0..len));
    for pos in 0..len {
        assert_eq!(copy.read_attributes(pos).0, rope.read_attributes(pos).0);
    }
}
