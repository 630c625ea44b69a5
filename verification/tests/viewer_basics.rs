use data_table::viewer::{
    CellWriteContext, CustomActionContext, CustomActionEditor, CustomMenuItem,
    EmptyRowCreateContext, RowViewer, SelectionSnapshot, UiActionContext, UiCursorState,
    UserCommand,
};
use data_table::{EnglishTranslator, Translator};

/// A row of integer cells; column `c` is `cells[c]`.
#[derive(Debug, Clone, PartialEq, Eq)]
pub struct IntRow {
    pub cells: Vec<i64>,
}

impl IntRow {
    pub fn of(values: &[i64]) -> Self {
        IntRow { cells: values.to_vec() }
    }
}

/// A viewer over two integer columns: sorts by cell value, edits allowed,
/// deletions confirmed unless the first cell is negative.
pub struct IntViewer;

impl RowViewer<IntRow> for IntViewer {
    fn num_columns(&self) -> usize {
        2
    }

    fn compare_cell(&self, a: &IntRow, b: &IntRow, column: usize) -> std::cmp::Ordering {
        a.cells[column].cmp(&b.cells[column])
    }

    fn filter_row(&self, row: &IntRow) -> bool {
        row.cells[0] < 1000
    }

    fn filter_fingerprint(&self) -> u64 {
        1
    }

    fn is_editable_cell(&self, _column: usize, _row: usize, _v: &IntRow) -> bool {
        true
    }

    fn allow_row_insertions(&self) -> bool {
        true
    }

    fn allow_row_deletions(&self) -> bool {
        true
    }

    fn confirm_cell_write_by_ui(
        &self,
        _current: &IntRow,
        _next: &IntRow,
        _column: usize,
        _context: CellWriteContext,
    ) -> bool {
        true
    }

    fn confirm_row_deletion_by_ui(&self, row: &IntRow) -> bool {
        row.cells[0] >= 0
    }

    fn new_empty_row_for(&self, _context: EmptyRowCreateContext) -> IntRow {
        IntRow { cells: vec![0, 0] }
    }

    fn clone_row(&self, row: &IntRow) -> IntRow {
        row.clone()
    }

    fn set_cell_value(&self, src: &IntRow, dst: &mut IntRow, column: usize) {
        dst.cells[column] = src.cells[column];
    }

    fn on_row_updated(&mut self, _row_id: usize, _new: &IntRow, _old: &IntRow) {}

    fn on_row_inserted(&mut self, _row_id: usize, _row: &IntRow) {}

    fn on_row_removed(&mut self, _row_id: usize, _row: &IntRow) {}

    fn on_custom_action(
        &mut self,
        _action_id: &str,
        _selection: &SelectionSnapshot<IntRow>,
    ) -> Vec<UserCommand<IntRow>> {
        Vec::new()
    }
}

#[test]
fn custom_action_editor_batches_cells() {
    let mut ed: CustomActionEditor<IntRow> = CustomActionEditor::new();
    ed.set_cell(3, 1, IntRow::of(&[7, 8]));
    ed.set_cell(4, 0, IntRow::of(&[9, 10]));
    ed.set_row(5, IntRow::of(&[1, 2]));
    let cmds = ed.into_commands();
    assert_eq!(cmds.len(), 2);
    match &cmds[0] {
        UserCommand::SetRowValue(id, row) => {
            assert_eq!(*id, 5);
            assert_eq!(row.cells, vec![1, 2]);
        }
        other => panic!("expected SetRowValue, got {:?}", other),
    }
    match &cmds[1] {
        UserCommand::SetCells { slab, values, context } => {
            assert_eq!(slab.len(), 2);
            assert_eq!(values, &vec![(3, 1, 0), (4, 0, 1)]);
            assert!(context.is_none());
        }
        other => panic!("expected SetCells, got {:?}", other),
    }
}

#[test]
fn custom_menu_item_builder() {
    let item = CustomMenuItem::new("my-action", "Do things".to_string())
        .icon("gear")
        .enabled(false);
    assert_eq!(item.id, "my-action");
    assert_eq!(item.label, "Do things");
    assert_eq!(item.icon, Some("gear"));
    assert!(!item.enabled);
}

#[test]
fn cursor_state_predicates() {
    assert!(UiCursorState::Idle.is_idle());
    assert!(!UiCursorState::Idle.is_editing());
    assert!(UiCursorState::Editing.is_editing());
    assert!(UiCursorState::SelectOne.is_selecting());
    assert!(UiCursorState::SelectMany.is_selecting());
    assert!(!UiCursorState::SelectMany.is_editing());
}

#[test]
fn english_translator_maps_known_keys() {
    let t = EnglishTranslator::default();
    assert_eq!(t.translate("context-menu-hide"), "Hide");
    assert_eq!(t.translate("context-menu-undo"), "Undo");
    assert_eq!(t.translate("context-menu-clear-sort"), "Clear sort");
    assert_eq!(t.translate("something-else"), "something-else");
}

#[test]
fn viewer_hooks_behave() {
    let v = IntViewer;
    assert_eq!(v.num_columns(), 2);
    assert!(v.confirm_row_deletion_by_ui(&IntRow::of(&[1, 2])));
    assert!(!v.confirm_row_deletion_by_ui(&IntRow::of(&[-1, 2])));
    let mut dst = IntRow::of(&[0, 0]);
    v.set_cell_value(&IntRow::of(&[5, 6]), &mut dst, 1);
    assert_eq!(dst, IntRow::of(&[0, 6]));
}

#[test]
fn ui_action_context_carries_cursor_state() {
    let ctx = UiActionContext { cursor: UiCursorState::SelectOne };
    assert!(ctx.cursor.is_selecting());
}

#[test]
fn custom_action_context_carries_selection_and_origin() {
    let snapshot = SelectionSnapshot::<IntRow> {
        selected_rows: vec![(3, IntRow::of(&[1, 2]))],
        selected_cells: vec![(3, 0), (3, 1)],
        interactive_cell: Some((3, 0)),
        visible_columns: 2,
    };
    let ctx = CustomActionContext { selection: snapshot, origin_cell: Some((3, 1)) };
    assert_eq!(ctx.origin_cell, Some((3, 1)));
    assert_eq!(ctx.selection.selected_cells.len(), 2);
    assert_eq!(ctx.selection.visible_columns, 2);
}
