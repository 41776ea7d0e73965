use flo_rope::{AttributedRope, PullRope, RopeAction};

#[test]
fn add_initial_change_range() {
    let mut rope = PullRope::from(AttributedRope::<u8, ()>::new(), || {});

    rope.mark_change(4..10, 15, false);

    assert!(rope.changes()[0].original_range == (4..10));
    assert!(rope.changes()[0].new_range == (4..19));
    assert!(rope.changes().len() == 1);
}

#[test]
fn shrink_range() {
    let mut rope = PullRope::from(AttributedRope::<u8, ()>::new(), || {});

    rope.mark_change(5..45, 1, false);

    assert!(rope.changes()[0].original_range == (5..45));
    assert!(rope.changes()[0].new_range == (5..6));
    assert!(rope.changes().len() == 1);
}

#[test]
fn add_multiple_changes_at_end() {
    let mut rope = PullRope::from(AttributedRope::<u8, ()>::new(), || {});

    rope.mark_change(4..10, 15, false);
    rope.mark_change(20..25, 5, false);

    assert!(rope.changes()[1].original_range == (11..16));
    assert!(rope.changes()[1].new_range == (20..25));

    assert!(rope.changes()[0].original_range == (4..10));
    assert!(rope.changes()[0].new_range == (4..19));
    assert!(rope.changes().len() == 2);
}

#[test]
fn add_overlapping_range_with_no_size_change() {
    let mut rope = PullRope::from(AttributedRope::<u8, ()>::new(), || {});

    rope.mark_change(4..10, 15, false);
    rope.mark_change(20..25, 5, false);
    rope.mark_change(6..11, 5, false);

    assert!(rope.changes()[1].original_range == (11..16));
    assert!(rope.changes()[1].new_range == (20..25));

    assert!(rope.changes()[0].original_range == (4..10));
    assert!(rope.changes()[0].new_range == (4..19));
    assert!(rope.changes().len() == 2);
}

#[test]
fn add_overlapping_range_with_size_change() {
    let mut rope = PullRope::from(AttributedRope::<u8, ()>::new(), || {});

    rope.mark_change(4..10, 15, false);
    rope.mark_change(20..25, 5, false);

    rope.mark_change(6..12, 5, false);

    assert!(rope.changes()[0].original_range == (4..10));
    assert!(rope.changes()[0].new_range == (4..18));

    assert!(rope.changes()[1].original_range == (11..16));
    assert!(rope.changes()[1].new_range == (19..24));

    assert!(rope.changes().len() == 2);
}

#[test]
fn add_overlapping_range_partially_at_end() {
    let mut rope = PullRope::from(AttributedRope::<u8, ()>::new(), || {});

    rope.mark_change(4..10, 15, false);
    rope.mark_change(4..30, 20, false);

    assert!(rope.changes()[0].original_range == (4..10));
    assert!(rope.changes()[0].new_range == (4..19));

    assert!(rope.changes()[1].original_range == (10..21));
    assert!(rope.changes()[1].new_range == (19..24));

    assert!(rope.changes().len() == 2);
}

#[test]
fn add_range_covering_existing_ranges() {
    let mut rope = PullRope::from(AttributedRope::<u8, ()>::new(), || {});

    rope.mark_change(5..10, 15, false);
    rope.mark_change(20..25, 5, false);
    rope.mark_change(5..30, 40, false);

    assert!(rope.changes()[2].original_range == (15..20));
    assert!(rope.changes()[2].new_range == (25..45));

    assert!(rope.changes()[1].original_range == (10..15));
    assert!(rope.changes()[1].new_range == (20..25));

    assert!(rope.changes()[0].original_range == (5..10));
    assert!(rope.changes()[0].new_range == (5..20));
    assert!(rope.changes().len() == 3);
}

#[test]
fn add_range_in_gap() {
    let mut rope = PullRope::from(AttributedRope::<u8, ()>::new(), || {});

    rope.mark_change(5..10, 10, false);
    rope.mark_change(20..25, 10, false);
    rope.mark_change(15..20, 10, false);

    assert!(rope.changes()[1].original_range == (10..15));
    assert!(rope.changes()[1].new_range == (15..25));

    assert!(rope.changes()[2].original_range == (15..20));
    assert!(rope.changes()[2].new_range == (25..35));

    assert!(rope.changes()[0].original_range == (5..10));
    assert!(rope.changes()[0].new_range == (5..15));
    assert!(rope.changes().len() == 3);
}

#[test]
fn add_range_partially_in_gap() {
    let mut rope = PullRope::from(AttributedRope::<u8, ()>::new(), || {});

    rope.mark_change(5..10, 10, false);
    rope.mark_change(20..25, 10, false);
    rope.mark_change(15..18, 8, false);

    assert!(rope.changes()[1].original_range == (10..13));
    assert!(rope.changes()[1].new_range == (15..23));

    assert!(rope.changes()[2].original_range == (15..20));
    assert!(rope.changes()[2].new_range == (25..35));

    assert!(rope.changes()[0].original_range == (5..10));
    assert!(rope.changes()[0].new_range == (5..15));
    assert!(rope.changes().len() == 3);
}

#[test]
fn shrink_gap() {
    let mut rope = PullRope::from(AttributedRope::<u8, ()>::new(), || {});

    rope.mark_change(5..10, 10, false);
    rope.mark_change(20..25, 10, false);
    rope.mark_change(15..20, 1, false);

    assert!(rope.changes()[1].original_range == (10..15));
    assert!(rope.changes()[1].new_range == (15..16));

    assert!(rope.changes()[2].original_range == (15..20));
    assert!(rope.changes()[2].new_range == (16..26));

    assert!(rope.changes()[0].original_range == (5..10));
    assert!(rope.changes()[0].new_range == (5..15));
    assert!(rope.changes().len() == 3);
}

#[test]
fn add_range_overlapping_gap() {
    let mut rope = PullRope::from(AttributedRope::<u8, ()>::new(), || {});

    rope.mark_change(5..10, 10, false);
    rope.mark_change(20..25, 10, false);
    rope.mark_change(5..20, 20, false);

    assert!(rope.changes()[1].original_range == (10..15));
    assert!(rope.changes()[1].new_range == (15..25));

    assert!(rope.changes()[2].original_range == (15..20));
    assert!(rope.changes()[2].new_range == (25..35));

    assert!(rope.changes()[0].original_range == (5..10));
    assert!(rope.changes()[0].new_range == (5..15));
    assert!(rope.changes().len() == 3);
}

#[test]
fn add_range_partially_overlapping_gap() {
    let mut rope = PullRope::from(AttributedRope::<u8, ()>::new(), || {});

    rope.mark_change(5..10, 10, false);
    rope.mark_change(20..25, 10, false);
    rope.mark_change(5..18, 18, false);

    assert!(rope.changes()[1].original_range == (10..13));
    assert!(rope.changes()[1].new_range == (15..23));

    assert!(rope.changes()[2].original_range == (15..20));
    assert!(rope.changes()[2].new_range == (25..35));

    assert!(rope.changes()[0].original_range == (5..10));
    assert!(rope.changes()[0].new_range == (5..15));
    assert!(rope.changes().len() == 3);
}

#[test]
fn add_range_with_gap_between_existing_ranges() {
    let mut rope = PullRope::from(AttributedRope::<u8, ()>::new(), || {});

    rope.mark_change(5..10, 10, false);
    rope.mark_change(20..25, 5, false);
    rope.mark_change(5..30, 40, false);

    assert!(rope.changes()[1].original_range == (10..15));
    assert!(rope.changes()[1].new_range == (15..20));

    assert!(rope.changes()[2].original_range == (15..20));
    assert!(rope.changes()[2].new_range == (20..25));

    assert!(rope.changes()[3].original_range == (20..25));
    assert!(rope.changes()[3].new_range == (25..45));

    assert!(rope.changes()[0].original_range == (5..10));
    assert!(rope.changes()[0].new_range == (5..15));
    assert!(rope.changes().len() == 4);
}

#[test]
fn add_and_shrink_range() {
    let mut rope = PullRope::from(AttributedRope::<u8, ()>::new(), || {});

    rope.mark_change(5..10, 10, false);
    rope.mark_change(20..25, 5, false);
    rope.mark_change(5..30, 40, false);
    rope.mark_change(5..45, 1, false);

    assert!(rope.changes()[0].original_range == (5..10));
    assert!(rope.changes()[0].new_range == (5..5));

    assert!(rope.changes()[1].original_range == (10..15));
    assert!(rope.changes()[1].new_range == (5..5));

    assert!(rope.changes()[2].original_range == (15..20));
    assert!(rope.changes()[2].new_range == (5..5));

    assert!(rope.changes()[3].original_range == (20..25));
    assert!(rope.changes()[3].new_range == (5..6));

    assert!(rope.changes().len() == 4);
}

#[test]
fn add_and_shrink_at_end() {
    let mut rope = PullRope::from(AttributedRope::<u8, ()>::new(), || {});

    rope.mark_change(5..10, 10, false);
    rope.mark_change(5..45, 1, false);

    assert!(rope.changes()[0].original_range == (5..10));
    assert!(rope.changes()[0].new_range == (5..5));

    assert!(rope.changes()[1].original_range == (10..40));
    assert!(rope.changes()[1].new_range == (5..6));

    assert!(rope.changes().len() == 2);
}

#[test]
fn add_and_shrink_range_across_gap_1() {
    let mut rope = PullRope::from(AttributedRope::<u8, ()>::new(), || {});

    rope.mark_change(5..10, 10, false);
    rope.mark_change(20..25, 5, false);
    rope.mark_change(5..45, 1, false);

    assert!(rope.changes()[0].original_range == (5..10));
    assert!(rope.changes()[0].new_range == (5..5));

    assert!(rope.changes()[1].original_range == (10..15));
    assert!(rope.changes()[1].new_range == (5..6));

    assert!(rope.changes()[2].original_range == (15..20));
    assert!(rope.changes()[2].new_range == (6..6));

    assert!(rope.changes()[3].original_range == (20..40));
    assert!(rope.changes()[3].new_range == (6..6));

    assert!(rope.changes().len() == 4);
}

#[test]
fn add_and_shrink_range_across_gap_2() {
    let mut rope = PullRope::from(AttributedRope::<u8, ()>::new(), || {});

    rope.mark_change(5..10, 5, false);
    rope.mark_change(20..25, 5, false);
    rope.mark_change(5..45, 1, false);

    assert!(rope.changes()[0].original_range == (5..10));
    assert!(rope.changes()[0].new_range == (5..5));

    assert!(rope.changes()[1].original_range == (10..20));
    assert!(rope.changes()[1].new_range == (5..6));

    assert!(rope.changes()[2].original_range == (20..25));
    assert!(rope.changes()[2].new_range == (6..6));

    assert!(rope.changes()[3].original_range == (25..45));
    assert!(rope.changes()[3].new_range == (6..6));

    assert!(rope.changes().len() == 4);
}

#[test]
fn add_and_shrink_range_into_gap() {
    let mut rope = PullRope::from(AttributedRope::<u8, ()>::new(), || {});

    rope.mark_change(5..10, 10, false);
    rope.mark_change(20..25, 5, false);
    rope.mark_change(5..18, 1, false);

    assert!(rope.changes()[0].original_range == (5..10));
    assert!(rope.changes()[0].new_range == (5..5));

    assert!(rope.changes()[1].original_range == (10..13));
    assert!(rope.changes()[1].new_range == (5..6));

    assert!(rope.changes()[2].original_range == (15..20));
    assert!(rope.changes()[2].new_range == (8..13));

    assert!(rope.changes().len() == 3);
}

#[test]
fn add_and_erase_range() {
    let mut rope = PullRope::from(AttributedRope::<u8, ()>::new(), || {});

    rope.mark_change(5..10, 10, false);
    rope.mark_change(20..25, 5, false);
    rope.mark_change(5..30, 40, false);
    rope.mark_change(5..45, 0, false);

    assert!(rope.changes()[0].original_range == (5..10));
    assert!(rope.changes()[0].new_range == (5..5));

    assert!(rope.changes()[1].original_range == (10..15));
    assert!(rope.changes()[1].new_range == (5..5));

    assert!(rope.changes()[2].original_range == (15..20));
    assert!(rope.changes()[2].new_range == (5..5));

    assert!(rope.changes()[3].original_range == (20..25));
    assert!(rope.changes()[3].new_range == (5..5));

    assert!(rope.changes().len() == 4);
}

#[test]
fn pull_rope_pull_basic_change() {
    let mut rope = PullRope::from(AttributedRope::<u8, ()>::new(), || {});

    rope.replace(0..0, vec![1, 2, 3]);

    let pulled = rope.pull_changes();
    assert!(pulled == vec![RopeAction::Replace(0..0, vec![1, 2, 3])]);
}

#[test]
fn pull_rope_clear_after_pull() {
    let mut rope = PullRope::from(AttributedRope::<u8, ()>::new(), || {});

    rope.replace(0..0, vec![1, 2, 3]);

    let _       = rope.pull_changes();
    let pulled  = rope.pull_changes();
    assert!(pulled == vec![]);
}
