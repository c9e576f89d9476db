use gitturtle::pdf_pages::{PageState, PdfPages};

#[test]
fn page_changes_reject_late_results_and_link_at_different_counts() {
    let mut before = PdfPages::new(20);
    let mut after = PdfPages::new(9);
    before.state.pending = true;
    before.linked = true;
    before.select_linked(15, &mut after);
    assert_eq!(before.state.page, 15);
    assert_eq!(after.state.page, 8);
    assert!(!before.state.accepts(0, 0));
    before.pause();
    assert!(!before.state.pending);
}

#[test]
fn unlinked_previews_move_alone_and_reselecting_keeps_the_request() {
    let mut left = PdfPages::new(3);
    let mut right = PdfPages::new(3);
    left.select_linked(2, &mut right);
    assert_eq!(left.state.page, 2);
    assert_eq!(left.state.generation, 1);
    assert_eq!(right.state.page, 0);
    left.state.pending = true;
    left.select(7);
    assert_eq!(left.state.page, 2);
    assert!(left.state.accepts(1, 2));
    left.restore(0, true);
    assert_eq!(left.state.page, 0);
    assert!(left.linked);
    assert!(!left.state.accepts(1, 2));
    let mut empty = PdfPages::new(0);
    empty.select(5);
    assert_eq!(empty.state.page, 0);
    let mut wrapping = PageState::new();
    wrapping.generation = u64::MAX;
    wrapping.pause();
    assert_eq!(wrapping.generation, 0);
}
