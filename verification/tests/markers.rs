use ayame_core::markers::{LineEdit, MarkerKind, MarkerSet, MarkerTransform};

#[test]
fn sparse_queries_work_at_ten_billion_lines() {
    let mut markers = MarkerSet::default();
    assert!(markers.is_empty());
    assert_eq!(markers.total_len(), 0);

    for line in [3, 9_999_999_999, 4_000_000_000] {
        markers.insert(MarkerKind::Bookmark, line).unwrap();
    }
    assert_eq!(markers.len(MarkerKind::Bookmark), 3);
    assert_eq!(
        markers.next_at_or_after(MarkerKind::Bookmark, 4),
        Some(4_000_000_000)
    );
    assert_eq!(
        markers.previous_at_or_before(MarkerKind::Bookmark, 9_000_000_000),
        Some(4_000_000_000)
    );
    assert_eq!(
        markers.range(MarkerKind::Bookmark, 0, 10_000_000_000, 10),
        vec![3, 4_000_000_000, 9_999_999_999]
    );
    assert_eq!(
        markers.range_count(MarkerKind::Bookmark, 4_000_000_000, 10_000_000_000),
        2
    );
    assert_eq!(markers.range_count(MarkerKind::Bookmark, 4, 4), 0);
}

#[test]
fn fixed_histogram_and_partition_replace_stay_sparse_at_ten_billion_lines() {
    let mut markers = MarkerSet::default();
    assert!(markers
        .replace_lines(
            MarkerKind::ChangeUnsaved,
            vec![3, 4_000_000_000, 10_000_000_000],
        )
        .unwrap());
    assert!(!markers
        .replace_lines(
            MarkerKind::ChangeUnsaved,
            vec![3, 4_000_000_000, 10_000_000_000],
        )
        .unwrap());

    let histogram = markers.histogram(MarkerKind::ChangeUnsaved, 10_000_000_000, 8);
    assert_eq!(histogram.len(), 8);
    assert_eq!(histogram.iter().sum::<u32>(), 3);
    assert_eq!(histogram[0], 1);
    assert_eq!(histogram[7], 1, "logical EOF maps to the final bin");
}

#[test]
fn replacement_preserves_first_line_removes_interior_and_shifts_suffix() {
    let mut markers = MarkerSet::default();
    for line in [4, 5, 7, 10] {
        markers.insert(MarkerKind::Bookmark, line).unwrap();
    }
    let inverse = markers
        .apply(MarkerTransform::new(LineEdit::replacement(4, 4, 2)))
        .unwrap();
    assert_eq!(markers.range(MarkerKind::Bookmark, 0, 20, 20), vec![4, 8]);

    let redo = markers.apply(inverse).unwrap();
    assert_eq!(
        markers.range(MarkerKind::Bookmark, 0, 20, 20),
        vec![4, 5, 7, 10]
    );
    markers.apply(redo).unwrap();
    assert_eq!(markers.range(MarkerKind::Bookmark, 0, 20, 20), vec![4, 8]);
}

#[test]
fn marker_added_on_inserted_line_disappears_on_undo_and_returns_on_redo() {
    let mut markers = MarkerSet::default();
    markers.insert(MarkerKind::Bookmark, 20).unwrap();

    let undo = markers
        .apply(MarkerTransform::new(LineEdit::replacement(10, 1, 3)))
        .unwrap();
    markers.insert(MarkerKind::Bookmark, 11).unwrap();
    assert_eq!(markers.range(MarkerKind::Bookmark, 0, 30, 30), vec![11, 22]);

    let redo = markers.apply(undo).unwrap();
    assert_eq!(markers.range(MarkerKind::Bookmark, 0, 30, 30), vec![20]);
    markers.apply(redo).unwrap();
    assert_eq!(markers.range(MarkerKind::Bookmark, 0, 30, 30), vec![11, 22]);
}

#[test]
fn marker_on_first_seeded_line_disappears_when_document_becomes_empty() {
    let mut markers = MarkerSet::default();
    let undo = markers
        .apply(MarkerTransform::new(LineEdit::replacement(0, 0, 1)))
        .unwrap();
    markers.insert(MarkerKind::Bookmark, 0).unwrap();

    let redo = markers.apply(undo).unwrap();
    assert!(markers.is_empty());
    markers.apply(redo).unwrap();
    assert!(markers.contains(MarkerKind::Bookmark, 0));
}

#[test]
fn insert_and_delete_are_exact_inverses_for_every_marker_kind() {
    let mut markers = MarkerSet::default();
    for (i, kind) in MarkerKind::ALL.into_iter().enumerate() {
        markers.insert(kind, 2 + i as u64).unwrap();
        markers.insert(kind, 12 + i as u64).unwrap();
    }
    let original = markers.all_in_range(0, u64::MAX, usize::MAX);
    let undo = markers
        .apply(MarkerTransform::new(LineEdit::replacement(5, 0, 7)))
        .unwrap();
    let redo = markers.apply(undo).unwrap();
    assert_eq!(markers.all_in_range(0, u64::MAX, usize::MAX), original);
    markers.apply(redo).unwrap();
    assert_ne!(markers.all_in_range(0, u64::MAX, usize::MAX), original);
}

#[test]
fn overflowing_shift_is_rejected_without_mutating_markers() {
    let mut markers = MarkerSet::default();
    markers.insert(MarkerKind::Bookmark, u64::MAX).unwrap();

    let result = markers.apply(MarkerTransform::new(LineEdit::replacement(0, 0, 1)));

    assert!(result.is_err());
    assert_eq!(markers.len(MarkerKind::Bookmark), 1);
    assert!(markers.contains(MarkerKind::Bookmark, u64::MAX));
}

#[test]
fn kinds_are_read_back_from_their_names() {
    for kind in MarkerKind::ALL {
        assert_eq!(MarkerKind::parse(kind.as_str()).unwrap(), kind);
        assert_eq!(kind.as_str().parse::<MarkerKind>().unwrap(), kind);
    }
    assert!(MarkerKind::parse("star").is_err());
}

#[test]
fn markers_are_toggled_removed_and_cleared() {
    let mut markers = MarkerSet::default();
    assert!(markers.toggle(MarkerKind::SearchRule, 8).unwrap());
    assert!(!markers.toggle(MarkerKind::SearchRule, 8).unwrap());
    assert!(markers.insert(MarkerKind::SearchRule, 8).unwrap());
    assert!(!markers.insert(MarkerKind::SearchRule, 8).unwrap());
    assert!(markers.insert(MarkerKind::SearchRule, 2).unwrap());
    assert_eq!(markers.first(MarkerKind::SearchRule), Some(2));
    assert_eq!(markers.last(MarkerKind::SearchRule), Some(8));
    assert_eq!(markers.from(MarkerKind::SearchRule, 3, 10), vec![8]);
    assert!(markers.remove(MarkerKind::SearchRule, 8));
    assert!(!markers.remove(MarkerKind::SearchRule, 8));
    markers.clear(MarkerKind::SearchRule);
    assert!(markers.is_empty());
    assert_eq!(markers.first(MarkerKind::SearchRule), None);
}

#[test]
fn an_edit_and_its_inverse() {
    let e = LineEdit::replacement(3, 2, 5).inverse();
    assert_eq!((e.start, e.old_lines, e.new_lines), (3, 5, 2));
}

#[test]
fn a_change_that_takes_another_back_is_never_refused() {
    let mut markers = MarkerSet::default();
    for line in [0, 4, 5, 6, 9, u64::MAX - 2] {
        markers.insert(MarkerKind::Bookmark, line).unwrap();
        markers.insert(MarkerKind::SearchRule, line / 2).unwrap();
    }
    let start = markers.all_in_range(0, u64::MAX, usize::MAX);
    let total = markers.total_len();
    assert_eq!(total, markers.len(MarkerKind::Bookmark) + markers.len(MarkerKind::SearchRule));
    for (at, old, new) in [(5, 0, 2), (4, 3, 0), (4, 3, 1), (0, 6, 8), (7, 1, 1)] {
        let edit = LineEdit::replacement(at, old, new);
        let undo = markers.apply(MarkerTransform::new(edit)).unwrap();
        let after = markers.all_in_range(0, u64::MAX, usize::MAX);
        let redo = markers.apply(undo).unwrap();
        assert_eq!(markers.all_in_range(0, u64::MAX, usize::MAX), start);
        let undo = markers.apply(redo).unwrap();
        assert_eq!(markers.all_in_range(0, u64::MAX, usize::MAX), after);
        markers.apply(undo).unwrap();
    }
    assert_eq!(markers.total_len(), total);
    assert!(!markers.is_empty());
    markers.clear(MarkerKind::Bookmark);
    markers.clear(MarkerKind::SearchRule);
    assert!(markers.is_empty() && markers.total_len() == 0);
}
