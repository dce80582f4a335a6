//! Checks of the pure viewer state: tab labels and table-selection moves.

use binary_walkr::ui_state::{
    decrement_table_selection, increment_table_selection, InfoTabLabels, TabState,
};

#[test]
fn tab_state_starts_on_overview() {
    let t = TabState::new();
    assert_eq!(t.selected_tab, 0);
    assert_eq!(t.tab_labels.len(), 3);
    assert_eq!(t.selected_label(), InfoTabLabels::Overview);
}

#[test]
fn selection_moves_are_clamped() {
    assert_eq!(increment_table_selection(None, 0), None);
    assert_eq!(increment_table_selection(None, 3), Some(0));
    assert_eq!(increment_table_selection(Some(0), 3), Some(1));
    assert_eq!(increment_table_selection(Some(2), 3), Some(2));
    assert_eq!(decrement_table_selection(None, 0), None);
    assert_eq!(decrement_table_selection(None, 3), Some(2));
    assert_eq!(decrement_table_selection(Some(2), 3), Some(1));
    assert_eq!(decrement_table_selection(Some(0), 3), Some(0));
}
