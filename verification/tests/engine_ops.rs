use data_table::actions::cycle_sort_key;
use data_table::clipboard::RowDecode;
use data_table::engine::{Command, DataTable, EngineError, SortKey, VisSelection};
use data_table::viewer::{
    CellWriteContext, DecodeErrorBehavior, EmptyRowCreateContext, MoveDirection, RowCodec,
    RowViewer, SelectionSnapshot, UiAction, UserCommand,
};

/// A row of two integer cells.
type Row = Vec<i64>;

/// Test viewer over two integer columns. `allow_delete`/`allow_insert`
/// gate mutations; rows whose first cell is negative refuse deletion; the
/// filter hides rows whose first cell is at least `filter_below`.
struct TestViewer {
    allow_delete: bool,
    allow_insert: bool,
    filter_below: i64,
    fingerprint: u64,
    updated: usize,
    inserted: usize,
    removed: usize,
}

impl TestViewer {
    fn permissive() -> Self {
        TestViewer {
            allow_delete: true,
            allow_insert: true,
            filter_below: i64::MAX,
            fingerprint: 0,
            updated: 0,
            inserted: 0,
            removed: 0,
        }
    }
}

impl RowViewer<Row> for TestViewer {
    fn num_columns(&self) -> usize {
        2
    }

    fn compare_cell(&self, a: &Row, b: &Row, column: usize) -> std::cmp::Ordering {
        a[column].cmp(&b[column])
    }

    fn filter_row(&self, row: &Row) -> bool {
        row[0] < self.filter_below
    }

    fn filter_fingerprint(&self) -> u64 {
        self.fingerprint
    }

    fn is_editable_cell(&self, _column: usize, _row: usize, _v: &Row) -> bool {
        true
    }

    fn allow_row_insertions(&self) -> bool {
        self.allow_insert
    }

    fn allow_row_deletions(&self) -> bool {
        self.allow_delete
    }

    fn confirm_cell_write_by_ui(
        &self,
        _current: &Row,
        next: &Row,
        _column: usize,
        _context: CellWriteContext,
    ) -> bool {
        // Refuse writes that would store the sentinel value.
        next.iter().all(|v| *v != -777)
    }

    fn confirm_row_deletion_by_ui(&self, row: &Row) -> bool {
        row[0] >= 0
    }

    fn new_empty_row_for(&self, _context: EmptyRowCreateContext) -> Row {
        vec![0, 0]
    }

    fn clone_row(&self, row: &Row) -> Row {
        row.clone()
    }

    fn set_cell_value(&self, src: &Row, dst: &mut Row, column: usize) {
        dst[column] = src[column];
    }

    fn on_row_updated(&mut self, _row_id: usize, _new: &Row, _old: &Row) {
        self.updated += 1;
    }

    fn on_row_inserted(&mut self, _row_id: usize, _row: &Row) {
        self.inserted += 1;
    }

    fn on_row_removed(&mut self, _row_id: usize, _row: &Row) {
        self.removed += 1;
    }

    fn on_custom_action(
        &mut self,
        action_id: &str,
        selection: &SelectionSnapshot<Row>,
    ) -> Vec<UserCommand<Row>> {
        if action_id == "zero-selected-rows" {
            selection
                .selected_rows
                .iter()
                .map(|(id, _)| UserCommand::SetRowValue(*id, vec![0, 0]))
                .collect()
        } else {
            Vec::new()
        }
    }
}

/// Codec that reads and writes each cell as a decimal integer; a parse
/// failure skips the whole row.
struct IntCodec;

impl RowCodec<Row> for IntCodec {
    fn create_empty_decoded_row(&self) -> Row {
        vec![0, 0]
    }

    fn encode_column(&self, src_row: &Row, column: usize, dst: &mut String) {
        dst.clear();
        dst.push_str(&src_row[column].to_string());
    }

    fn decode_column(
        &self,
        src_data: &str,
        column: usize,
        dst_row: &mut Row,
    ) -> Result<(), DecodeErrorBehavior> {
        match src_data.parse::<i64>() {
            Ok(v) => {
                dst_row[column] = v;
                Ok(())
            }
            Err(_) => Err(DecodeErrorBehavior::SkipRow),
        }
    }
}

fn seeded(viewer: &mut TestViewer, rows: &[(i64, i64)]) -> DataTable<Row> {
    let mut t = DataTable::new(2);
    let values: Vec<Row> = rows.iter().map(|(a, b)| vec![*a, *b]).collect();
    t.insert_rows(viewer, 0, values).unwrap();
    t.force_refresh(viewer);
    t
}

fn visible_values(t: &DataTable<Row>) -> Vec<(i64, i64)> {
    t.visible_rows_ref()
        .iter()
        .map(|id| {
            let r = t.store.get(*id);
            (r[0], r[1])
        })
        .collect()
}

#[test]
fn insert_and_project() {
    let mut v = TestViewer::permissive();
    let mut t = seeded(&mut v, &[(1, 10), (2, 20), (3, 30)]);
    t.force_refresh(&mut v);
    assert_eq!(t.visible_row_count(), 3);
    assert_eq!(visible_values(&t), vec![(1, 10), (2, 20), (3, 30)]);
    assert_eq!(v.inserted, 3);
}

#[test]
fn undo_restores_store_sort_and_selection_exactly() {
    // Apply a command, then its inverse via undo: Row Store, projection
    // inputs and selection come back bit for bit.
    let mut v = TestViewer::permissive();
    let mut t = seeded(&mut v, &[(5, 1), (6, 2)]);
    let before = visible_values(&t);
    let sort_before: Vec<SortKey> = t.sort.clone();
    let sel_before = t.selection.ranges.clone();

    t.set_cells(&mut v, &vec![vec![9, 9]], &vec![(0, 0, 0), (1, 1, 0)], CellWriteContext::Paste)
        .unwrap();
    t.force_refresh(&mut v);
    assert_eq!(visible_values(&t), vec![(9, 1), (6, 9)]);

    assert!(t.undo_one(&mut v));
    t.force_refresh(&mut v);
    assert_eq!(visible_values(&t), before);
    assert_eq!(t.sort, sort_before);
    assert_eq!(t.selection.ranges, sel_before);

    // And redo replays it exactly, deterministically.
    assert!(t.redo_one(&mut v));
    t.force_refresh(&mut v);
    assert_eq!(visible_values(&t), vec![(9, 1), (6, 9)]);
    assert!(t.undo_one(&mut v));
    t.force_refresh(&mut v);
    assert_eq!(visible_values(&t), before);
}

#[test]
fn undo_restores_removed_rows_with_same_ids() {
    let mut v = TestViewer::permissive();
    let mut t = seeded(&mut v, &[(1, 0), (2, 0), (3, 0)]);
    let id_middle = t.visible_rows_ref()[1];
    t.remove_rows(&mut v, &vec![id_middle]).unwrap();
    t.force_refresh(&mut v);
    assert_eq!(visible_values(&t), vec![(1, 0), (3, 0)]);
    assert!(t.undo_one(&mut v));
    t.force_refresh(&mut v);
    assert_eq!(visible_values(&t), vec![(1, 0), (2, 0), (3, 0)]);
    // The revived row keeps its stable id.
    assert_eq!(t.visible_rows_ref()[1], id_middle);
}

#[test]
fn undo_of_insert_releases_fresh_ids() {
    let mut v = TestViewer::permissive();
    let mut t = seeded(&mut v, &[(1, 0)]);
    let slots_before = t.store.next_id();
    t.insert_rows(&mut v, 1, vec![vec![2, 0]]).unwrap();
    assert_eq!(t.store.next_id(), slots_before + 1);
    assert!(t.undo_one(&mut v));
    // The undone insertion returns its slot: ids are not leaked.
    assert_eq!(t.store.next_id(), slots_before);
    assert_eq!(t.store.len(), 1);
}

#[test]
fn undo_cap_evicts_oldest_never_newest() {
    let mut v = TestViewer::permissive();
    let mut t = seeded(&mut v, &[(0, 0)]);
    t.set_max_undo(3);
    let id = t.visible_rows_ref()[0];
    for k in 1..=5i64 {
        t.set_row_value(&mut v, id, vec![k, 0]).unwrap();
    }
    // Depth never exceeds the cap.
    assert_eq!(t.undo.len(), 3);
    // Undoing all three walks back 5 -> 4 -> 3 -> 2; the two oldest entries
    // (2 -> 1 and 1 -> 0) were evicted.
    assert!(t.undo_one(&mut v));
    assert_eq!(t.store.get(id)[0], 4);
    assert!(t.undo_one(&mut v));
    assert_eq!(t.store.get(id)[0], 3);
    assert!(t.undo_one(&mut v));
    assert_eq!(t.store.get(id)[0], 2);
    assert!(!t.undo_one(&mut v));
}

#[test]
fn zero_cap_selects_default() {
    let mut t: DataTable<Row> = DataTable::new(2);
    t.set_max_undo(0);
    assert_eq!(t.max_undo, 100);
}

#[test]
fn new_command_clears_redo() {
    let mut v = TestViewer::permissive();
    let mut t = seeded(&mut v, &[(0, 0)]);
    let id = t.visible_rows_ref()[0];
    t.set_row_value(&mut v, id, vec![1, 0]).unwrap();
    assert!(t.undo_one(&mut v));
    assert_eq!(t.redo.len(), 1);
    t.set_row_value(&mut v, id, vec![7, 0]).unwrap();
    assert_eq!(t.redo.len(), 0);
    assert!(!t.redo_one(&mut v));
}

#[test]
fn sort_is_stable_on_equal_keys() {
    // Rows (A,2),(B,1),(C,2) sorted ascending by the second field give
    // (B,1),(A,2),(C,2): equal keys keep their original relative order.
    let mut v = TestViewer::permissive();
    let mut t = seeded(&mut v, &[(100, 2), (200, 1), (300, 2)]);
    t.set_sort(&mut v, vec![SortKey { column: 1, ascending: true }]).unwrap();
    t.force_refresh(&mut v);
    assert_eq!(visible_values(&t), vec![(200, 1), (100, 2), (300, 2)]);
}

#[test]
fn sort_descending_and_clear() {
    let mut v = TestViewer::permissive();
    let mut t = seeded(&mut v, &[(1, 0), (3, 0), (2, 0)]);
    t.set_sort(&mut v, vec![SortKey { column: 0, ascending: false }]).unwrap();
    t.force_refresh(&mut v);
    assert_eq!(visible_values(&t), vec![(3, 0), (2, 0), (1, 0)]);
    // Clearing the sort restores arena order.
    t.set_sort(&mut v, vec![]).unwrap();
    t.force_refresh(&mut v);
    assert_eq!(visible_values(&t), vec![(1, 0), (3, 0), (2, 0)]);
}

#[test]
fn sort_rejects_unknown_column() {
    let mut v = TestViewer::permissive();
    let mut t = seeded(&mut v, &[(1, 0)]);
    assert_eq!(
        t.set_sort(&mut v, vec![SortKey { column: 2, ascending: true }]),
        Err(EngineError::InvalidColumn)
    );
}

#[test]
fn unfilter_restores_original_visible_order() {
    let mut v = TestViewer::permissive();
    let mut t = seeded(&mut v, &[(1, 0), (50, 0), (2, 0)]);
    let before = visible_values(&t);
    // Filter out large rows...
    v.filter_below = 10;
    v.fingerprint = 1;
    t.refresh(&mut v);
    assert_eq!(visible_values(&t), vec![(1, 0), (2, 0)]);
    // ... then revert the filter to always-true, with no mutation between.
    v.filter_below = i64::MAX;
    v.fingerprint = 2;
    t.refresh(&mut v);
    assert_eq!(visible_values(&t), before);
}

#[test]
fn paste_with_non_numeric_field_and_skip_row_mutates_nothing() {
    // Clipboard "x\ty\n": the first field fails to parse and the codec says
    // SkipRow, so zero rows change.
    let mut v = TestViewer::permissive();
    let mut t = seeded(&mut v, &[(1, 10), (2, 20)]);
    let before = visible_values(&t);
    let undo_before = t.undo.len();
    let applied = t.paste_in_place(&mut v, &IntCodec, "x\ty\n").unwrap();
    assert_eq!(applied, 0);
    t.force_refresh(&mut v);
    assert_eq!(visible_values(&t), before);
    // No history entry either: nothing was applied.
    assert_eq!(t.undo.len(), undo_before);
}

#[test]
fn paste_in_place_overwrites_from_anchor() {
    let mut v = TestViewer::permissive();
    let mut t = seeded(&mut v, &[(1, 10), (2, 20), (3, 30)]);
    // Anchor at the top-left (no selection, no focus).
    let applied = t.paste_in_place(&mut v, &IntCodec, "7\t8\n9\t6\n").unwrap();
    assert_eq!(applied, 2);
    t.force_refresh(&mut v);
    assert_eq!(visible_values(&t), vec![(7, 8), (9, 6), (3, 30)]);
    // Undo takes both rows back in one step: one user action, one entry.
    assert!(t.undo_one(&mut v));
    t.force_refresh(&mut v);
    assert_eq!(visible_values(&t), vec![(1, 10), (2, 20), (3, 30)]);
}

#[test]
fn paste_insert_appends_new_rows_after_anchor() {
    let mut v = TestViewer::permissive();
    let mut t = seeded(&mut v, &[(1, 10), (2, 20)]);
    let applied = t.paste_insert(&mut v, &IntCodec, "7\t8\n").unwrap();
    assert_eq!(applied, 1);
    t.force_refresh(&mut v);
    assert_eq!(visible_values(&t), vec![(1, 10), (7, 8), (2, 20)]);
}

#[test]
fn paste_insert_refused_without_insertions() {
    let mut v = TestViewer::permissive();
    let mut t = seeded(&mut v, &[(1, 10)]);
    v.allow_insert = false;
    assert_eq!(
        t.paste_insert(&mut v, &IntCodec, "7\t8\n"),
        Err(EngineError::NotAllowed)
    );
}

#[test]
fn select_all_covers_whole_grid_regardless_of_prior_selection() {
    let mut v = TestViewer::permissive();
    let mut t = seeded(&mut v, &[(1, 0), (2, 0), (3, 0)]);
    // Select the linear range [2, 5] first.
    t.set_selection(&mut v, vec![VisSelection(2, 5)], None);
    t.select_all(&mut v).unwrap();
    // The selection covers exactly visible_rows * visible_columns cells.
    let cells = t.covered_cells_list();
    assert_eq!(cells.len(), 3 * 2);
    assert_eq!(t.selection.ranges, vec![VisSelection(0, 5)]);
}

#[test]
fn refused_deletion_leaves_store_and_history_untouched() {
    let mut v = TestViewer::permissive();
    // A negative first cell refuses deletion.
    let mut t = seeded(&mut v, &[(-1, 0), (4, 0)]);
    let undo_before = t.undo.len();
    let id_refused = t.visible_rows_ref()[0];
    t.remove_rows(&mut v, &vec![id_refused]).unwrap();
    assert_eq!(t.store.len(), 2);
    assert_eq!(t.undo.len(), undo_before);
    // A mixed batch removes only the confirmed row.
    let id_ok = t.visible_rows_ref()[1];
    t.remove_rows(&mut v, &vec![id_refused, id_ok]).unwrap();
    t.force_refresh(&mut v);
    assert_eq!(visible_values(&t), vec![(-1, 0)]);
    assert_eq!(t.undo.len(), undo_before + 1);
}

#[test]
fn removing_edited_row_closes_the_edit_session() {
    let mut v = TestViewer::permissive();
    let mut t = seeded(&mut v, &[(1, 0), (2, 0)]);
    let id = t.visible_rows_ref()[0];
    t.start_edit(&mut v, id, 1).unwrap();
    assert_eq!(t.editing_cell(), Some((id, 1)));
    t.remove_rows(&mut v, &vec![id]).unwrap();
    // Editing -> Idle, no dangling working copy; the store is consistent.
    assert_eq!(t.editing_cell(), None);
    assert!(t.working_row().is_none());
    t.force_refresh(&mut v);
    assert_eq!(visible_values(&t), vec![(2, 0)]);
}

#[test]
fn edited_row_filtered_out_closes_the_edit_session() {
    let mut v = TestViewer::permissive();
    let mut t = seeded(&mut v, &[(50, 0), (1, 0)]);
    let id = t.visible_rows_ref()[0];
    t.start_edit(&mut v, id, 0).unwrap();
    v.filter_below = 10;
    v.fingerprint = 1;
    t.refresh(&mut v);
    assert_eq!(t.editing_cell(), None);
}

#[test]
fn commit_edit_writes_one_column_through_the_viewer() {
    let mut v = TestViewer::permissive();
    let mut t = seeded(&mut v, &[(1, 10)]);
    let id = t.visible_rows_ref()[0];
    t.start_edit(&mut v, id, 1).unwrap();
    t.set_working_row(vec![99, 42]).unwrap();
    assert!(t.commit_edit(&mut v));
    // Only the edited column is written back.
    assert_eq!(t.store.get(id), &vec![1i64, 42]);
    assert_eq!(t.editing_cell(), None);
    // And the commit is one undoable action.
    assert!(t.undo_one(&mut v));
    assert_eq!(t.store.get(id), &vec![1i64, 10]);
}

#[test]
fn cancel_edit_discards_working_copy() {
    let mut v = TestViewer::permissive();
    let mut t = seeded(&mut v, &[(1, 10)]);
    let id = t.visible_rows_ref()[0];
    t.start_edit(&mut v, id, 0).unwrap();
    t.set_working_row(vec![5, 5]).unwrap();
    t.cancel_edit();
    assert_eq!(t.store.get(id), &vec![1i64, 10]);
    assert_eq!(t.editing_cell(), None);
}

#[test]
fn refused_cell_writes_are_dropped_silently() {
    let mut v = TestViewer::permissive();
    let mut t = seeded(&mut v, &[(1, 10), (2, 20)]);
    let undo_before = t.undo.len();
    // The sentinel -777 is refused by the write hook; the other write lands.
    t.set_cells(
        &mut v,
        &vec![vec![-777, -777], vec![5, 5]],
        &vec![(0, 0, 0), (1, 0, 1)],
        CellWriteContext::Paste,
    )
    .unwrap();
    t.force_refresh(&mut v);
    assert_eq!(visible_values(&t), vec![(1, 10), (5, 20)]);
    assert_eq!(t.undo.len(), undo_before + 1);
    // An all-refused batch leaves no history entry at all.
    t.set_cells(&mut v, &vec![vec![-777, 0]], &vec![(0, 0, 0)], CellWriteContext::Clear)
        .unwrap();
    assert_eq!(t.undo.len(), undo_before + 1);
}

#[test]
fn engine_reports_desynchronized_hosts_loudly() {
    let mut v = TestViewer::permissive();
    let mut t = seeded(&mut v, &[(1, 0)]);
    assert_eq!(t.remove_rows(&mut v, &vec![17]), Err(EngineError::InvalidRowId));
    assert_eq!(t.set_row_value(&mut v, 17, vec![0, 0]), Err(EngineError::InvalidRowId));
    assert_eq!(t.start_edit(&mut v, 0, 9), Err(EngineError::InvalidColumn));
    assert_eq!(
        t.insert_rows(&mut v, 5, vec![vec![0, 0]]),
        Err(EngineError::InvalidPosition)
    );
    assert_eq!(
        t.set_cells(&mut v, &vec![], &vec![(0, 0, 0)], CellWriteContext::Paste),
        Err(EngineError::InvalidSlabIndex)
    );
    v.allow_delete = false;
    assert_eq!(t.remove_rows(&mut v, &vec![0]), Err(EngineError::NotAllowed));
}

#[test]
fn hide_and_reorder_columns_is_undoable() {
    let mut v = TestViewer::permissive();
    let mut t = seeded(&mut v, &[(1, 10)]);
    assert_eq!(t.visible_columns_ref(), &vec![0, 1]);
    t.set_visible_columns(&mut v, vec![1]).unwrap();
    assert_eq!(t.visible_columns_ref(), &vec![1]);
    assert!(t.undo_one(&mut v));
    assert_eq!(t.visible_columns_ref(), &vec![0, 1]);
    // Reorder.
    t.set_visible_columns(&mut v, vec![1, 0]).unwrap();
    assert_eq!(t.visible_columns_ref(), &vec![1, 0]);
    // Duplicates and unknown columns are rejected.
    assert_eq!(t.set_visible_columns(&mut v, vec![0, 0]), Err(EngineError::InvalidColumn));
    assert_eq!(t.set_visible_columns(&mut v, vec![2]), Err(EngineError::InvalidColumn));
    assert_eq!(t.set_visible_columns(&mut v, vec![]), Err(EngineError::InvalidColumn));
}

#[test]
fn hiding_edited_column_closes_the_edit_session() {
    let mut v = TestViewer::permissive();
    let mut t = seeded(&mut v, &[(1, 10)]);
    let id = t.visible_rows_ref()[0];
    t.start_edit(&mut v, id, 1).unwrap();
    t.set_visible_columns(&mut v, vec![0]).unwrap();
    assert_eq!(t.editing_cell(), None);
}

#[test]
fn copy_and_cut_selection() {
    let mut v = TestViewer::permissive();
    let mut t = seeded(&mut v, &[(1, 10), (2, 20)]);
    t.select_all(&mut v).unwrap();
    let text = t.copy_selection(&IntCodec);
    assert_eq!(text, "1\t10\n2\t20\n");
    // Cut returns the same text and clears the cells to the deletion
    // placeholder (zeros).
    let text2 = t.cut_selection(&mut v, &IntCodec);
    assert_eq!(text2, "1\t10\n2\t20\n");
    t.force_refresh(&mut v);
    assert_eq!(visible_values(&t), vec![(0, 0), (0, 0)]);
}

#[test]
fn ui_actions_drive_the_engine() {
    let mut v = TestViewer::permissive();
    let mut t = seeded(&mut v, &[(1, 0), (2, 0), (3, 0)]);
    // Move focus down twice, then to the top.
    t.apply_ui_action(&mut v, UiAction::MoveSelection(MoveDirection::Down), 1).unwrap();
    t.apply_ui_action(&mut v, UiAction::MoveSelection(MoveDirection::Down), 1).unwrap();
    assert_eq!(t.selection.interactive, Some(4));
    t.apply_ui_action(&mut v, UiAction::NavTop, 1).unwrap();
    assert_eq!(t.selection.interactive, Some(0));
    // Duplicate the focused row.
    t.apply_ui_action(&mut v, UiAction::DuplicateRow, 1).unwrap();
    t.force_refresh(&mut v);
    assert_eq!(visible_values(&t), vec![(1, 0), (1, 0), (2, 0), (3, 0)]);
    // Undo through the action route.
    t.apply_ui_action(&mut v, UiAction::Undo, 1).unwrap();
    t.force_refresh(&mut v);
    assert_eq!(visible_values(&t), vec![(1, 0), (2, 0), (3, 0)]);
}

#[test]
fn custom_action_receives_selection_and_queues_commands() {
    let mut v = TestViewer::permissive();
    let mut t = seeded(&mut v, &[(1, 10), (2, 20)]);
    t.select_all(&mut v).unwrap();
    t.run_custom_action(&mut v, "zero-selected-rows").unwrap();
    t.force_refresh(&mut v);
    assert_eq!(visible_values(&t), vec![(0, 0), (0, 0)]);
    // Two SetRowValue commands were queued: two undo steps.
    assert!(t.undo_one(&mut v));
    assert!(t.undo_one(&mut v));
    t.force_refresh(&mut v);
    assert_eq!(visible_values(&t), vec![(1, 10), (2, 20)]);
}

#[test]
fn user_command_translation() {
    let mut v = TestViewer::permissive();
    let mut t = seeded(&mut v, &[(1, 10)]);
    t.apply_user_command(&mut v, UserCommand::InsertRows(1, vec![vec![2, 20]])).unwrap();
    t.apply_user_command(&mut v, UserCommand::SetRowValue(0, vec![5, 50])).unwrap();
    t.apply_user_command(
        &mut v,
        UserCommand::SetCells { slab: vec![vec![8, 8]], values: vec![(1, 0, 0)], context: None },
    )
    .unwrap();
    t.force_refresh(&mut v);
    assert_eq!(visible_values(&t), vec![(5, 50), (8, 20)]);
    t.apply_user_command(&mut v, UserCommand::RemoveRows(vec![0])).unwrap();
    t.force_refresh(&mut v);
    assert_eq!(visible_values(&t), vec![(8, 20)]);
}

#[test]
fn command_notifications_fire_once_per_affected_row() {
    let mut v = TestViewer::permissive();
    let mut t = seeded(&mut v, &[(1, 0), (2, 0)]);
    assert_eq!(v.inserted, 2);
    let id = t.visible_rows_ref()[0];
    t.set_row_value(&mut v, id, vec![9, 9]).unwrap();
    assert_eq!(v.updated, 1);
    t.remove_rows(&mut v, &vec![id]).unwrap();
    assert_eq!(v.removed, 1);
    // Undo of a removal notifies an insertion (replay notifies too).
    assert!(t.undo_one(&mut v));
    assert_eq!(v.inserted, 3);
}

#[test]
fn multi_key_sort_breaks_ties_with_later_keys() {
    let mut v = TestViewer::permissive();
    let mut t = seeded(&mut v, &[(2, 1), (1, 2), (1, 1), (2, 2)]);
    t.set_sort(
        &mut v,
        vec![
            SortKey { column: 0, ascending: true },
            SortKey { column: 1, ascending: false },
        ],
    )
    .unwrap();
    t.force_refresh(&mut v);
    assert_eq!(visible_values(&t), vec![(1, 2), (1, 1), (2, 2), (2, 1)]);
}

#[test]
fn command_type_is_reexported_for_hosts() {
    // The engine's command vocabulary is public: a host can build one.
    let c: Command<Row> = Command::SetSort(vec![SortKey { column: 0, ascending: true }]);
    match c {
        Command::SetSort(keys) => assert_eq!(keys.len(), 1),
        _ => panic!("unexpected variant"),
    }
}

#[test]
fn ui_state_export_import_round_trip() {
    let mut v = TestViewer::permissive();
    let mut t = seeded(&mut v, &[(3, 0), (1, 0), (2, 0)]);
    t.set_sort(&mut v, vec![SortKey { column: 0, ascending: true }]).unwrap();
    t.set_visible_columns(&mut v, vec![1, 0]).unwrap();
    t.set_selection(&mut v, vec![VisSelection(0, 3)], Some(2));
    let (sort, cols, ranges, focus) = t.export_ui_state();

    let mut v2 = TestViewer::permissive();
    let mut t2 = seeded(&mut v2, &[(3, 0), (1, 0), (2, 0)]);
    t2.import_ui_state(&mut v2, sort, cols, ranges, focus).unwrap();
    t2.force_refresh(&mut v2);
    assert_eq!(t2.sort, vec![SortKey { column: 0, ascending: true }]);
    assert_eq!(t2.visible_columns_ref(), &vec![1, 0]);
    assert_eq!(t2.selection.ranges, vec![VisSelection(0, 3)]);
    assert_eq!(t2.selection.interactive, Some(2));
    assert_eq!(visible_values(&t2), vec![(1, 0), (2, 0), (3, 0)]);
}

#[test]
fn select_all_on_empty_grid_clears_selection() {
    let mut v = TestViewer::permissive();
    let mut t: DataTable<Row> = DataTable::new(2);
    t.force_refresh(&mut v);
    t.set_selection(&mut v, vec![VisSelection(1, 2)], None);
    t.select_all(&mut v).unwrap();
    assert!(t.selection.ranges.is_empty());
    assert_eq!(t.covered_cells_list().len(), 0);
}

#[test]
fn undo_of_sort_and_columns_restores_projection_inputs() {
    let mut v = TestViewer::permissive();
    let mut t = seeded(&mut v, &[(2, 0), (1, 0)]);
    t.set_sort(&mut v, vec![SortKey { column: 0, ascending: true }]).unwrap();
    t.set_visible_columns(&mut v, vec![1]).unwrap();
    assert!(t.undo_one(&mut v));
    assert_eq!(t.visible_columns_ref(), &vec![0, 1]);
    assert!(t.undo_one(&mut v));
    assert!(t.sort.is_empty());
    t.force_refresh(&mut v);
    assert_eq!(visible_values(&t), vec![(2, 0), (1, 0)]);
}

#[test]
fn selection_change_is_a_command_with_an_exact_inverse() {
    let mut v = TestViewer::permissive();
    let mut t = seeded(&mut v, &[(1, 0), (2, 0)]);
    t.set_selection(&mut v, vec![VisSelection(0, 1)], Some(0));
    t.set_selection(&mut v, vec![VisSelection(2, 3)], Some(3));
    assert!(t.undo_one(&mut v));
    assert_eq!(t.selection.ranges, vec![VisSelection(0, 1)]);
    assert_eq!(t.selection.interactive, Some(0));
    assert!(t.redo_one(&mut v));
    assert_eq!(t.selection.ranges, vec![VisSelection(2, 3)]);
    assert_eq!(t.selection.interactive, Some(3));
}

#[test]
fn set_selection_normalizes_reversed_corners() {
    let mut v = TestViewer::permissive();
    let mut t = seeded(&mut v, &[(1, 0), (2, 0)]);
    t.set_selection(&mut v, vec![VisSelection(3, 1)], None);
    assert_eq!(t.selection.ranges, vec![VisSelection(1, 3)]);
}

#[test]
fn decode_row_applies_policy_per_cell() {
    // Both cells numeric: a fully decoded row.
    let fields = vec!["7".to_string(), "8".to_string()];
    let cols = vec![0usize, 1usize];
    match DataTable::<Row>::decode_row(&IntCodec, &fields, &cols) {
        RowDecode::Decoded { row, kept } => {
            assert_eq!(row, vec![7, 8]);
            assert_eq!(kept, vec![0, 1]);
        }
        _ => panic!("expected a decoded row"),
    }
    // A non-numeric cell with a SkipRow codec abandons the row.
    let bad = vec!["x".to_string(), "8".to_string()];
    assert!(matches!(
        DataTable::<Row>::decode_row(&IntCodec, &bad, &cols),
        RowDecode::Skipped
    ));
}

#[test]
fn copy_then_paste_in_place_round_trips() {
    // Copy a selection, then paste the text back over the same selection
    // with every write confirmed: the rows come back exactly, including
    // values that contain delimiters once the codec is textual.
    let mut v = TestViewer::permissive();
    let mut t = seeded(&mut v, &[(1, 10), (2, 20), (3, 30)]);
    t.select_all(&mut v).unwrap();
    let before = visible_values(&t);
    let text = t.copy_selection(&IntCodec);
    let applied = t.paste_in_place(&mut v, &IntCodec, &text).unwrap();
    assert_eq!(applied, 3);
    t.force_refresh(&mut v);
    assert_eq!(visible_values(&t), before);
}

#[test]
fn paste_skipped_rows_leave_no_history_entry_and_later_rows_land() {
    // A block whose first row fails to decode (SkipRow) still pastes its
    // later rows; only the decoded rows form the one undo entry.
    let mut v = TestViewer::permissive();
    let mut t = seeded(&mut v, &[(1, 10), (2, 20)]);
    let applied = t.paste_in_place(&mut v, &IntCodec, "x\ty\n7\t8\n").unwrap();
    assert_eq!(applied, 1);
    t.force_refresh(&mut v);
    // The skipped first block row leaves row one alone; the second block
    // row lands on the second grid row.
    assert_eq!(visible_values(&t), vec![(1, 10), (7, 8)]);
    assert!(t.undo_one(&mut v));
    t.force_refresh(&mut v);
    assert_eq!(visible_values(&t), vec![(1, 10), (2, 20)]);
}

#[test]
fn cycle_sort_key_walks_ascending_descending_removed() {
    let none: Vec<SortKey> = vec![];
    let asc = cycle_sort_key(&none, 1);
    assert_eq!(asc, vec![SortKey { column: 1, ascending: true }]);
    let desc = cycle_sort_key(&asc, 1);
    assert_eq!(desc, vec![SortKey { column: 1, ascending: false }]);
    let gone = cycle_sort_key(&desc, 1);
    assert!(gone.is_empty());
    // Other keys keep their place.
    let two = vec![
        SortKey { column: 0, ascending: true },
        SortKey { column: 1, ascending: false },
    ];
    let cycled = cycle_sort_key(&two, 1);
    assert_eq!(cycled, vec![SortKey { column: 0, ascending: true }]);
}

#[test]
fn seed_row_fills_an_empty_table_once() {
    let mut v = TestViewer::permissive();
    let mut t: DataTable<Row> = DataTable::new(2);
    t.ensure_seed_row(&mut v).unwrap();
    assert_eq!(t.store.len(), 1);
    // A second call is a no-op, and a forbidding viewer seeds nothing.
    t.ensure_seed_row(&mut v).unwrap();
    assert_eq!(t.store.len(), 1);
    let mut v2 = TestViewer::permissive();
    v2.allow_insert = false;
    let mut t2: DataTable<Row> = DataTable::new(2);
    t2.ensure_seed_row(&mut v2).unwrap();
    assert_eq!(t2.store.len(), 0);
}

#[test]
fn clipboard_actions_are_not_routed_through_dispatch() {
    let mut v = TestViewer::permissive();
    let mut t = seeded(&mut v, &[(1, 10)]);
    assert_eq!(
        t.apply_ui_action(&mut v, UiAction::CopySelection, 1),
        Err(EngineError::NotAllowed)
    );
    assert_eq!(
        t.apply_ui_action(&mut v, UiAction::PasteInPlace, 1),
        Err(EngineError::NotAllowed)
    );
}

#[test]
fn default_viewer_hooks_contribute_nothing() {
    let mut v = TestViewer::permissive();
    let t = seeded(&mut v, &[(1, 10)]);
    // The default context-menu hook returns no items; the default column
    // name is empty.
    assert!(t.context_menu_items(&mut v).is_empty());
    assert_eq!(v.column_name(0), "");
}
