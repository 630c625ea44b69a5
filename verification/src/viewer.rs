//! The viewer capability interface: everything the engine needs a host to
//! supply about its row type — column count, per-column comparison and
//! editability, row creation and copying, write/deletion confirmation hooks,
//! lifecycle notifications, and the optional clipboard codec.
//!
//! Each behavioral method is paired with a spec function describing its
//! result, so engine contracts can speak about what a given viewer will
//! answer. Lifecycle notifications carry no contract: the engine promises
//! only when they are invoked, never what they do.

use vstd::prelude::*;

verus! {

use core::cmp::Ordering;

/// Decode-error policy signalled by a codec, per failing cell.
#[derive(Debug, Clone, Copy, PartialEq, Eq, Structural)]
pub enum DecodeErrorBehavior {
    /// Skip the cell (leave the destination column as it was) and continue
    /// with the rest of the row.
    SkipCell,
    /// Abandon the current row and continue with the next one.
    SkipRow,
    /// Stop the whole decode; rows not yet committed are discarded.
    Abort,
}

impl Default for DecodeErrorBehavior {
    fn default() -> (r: Self)
        ensures
            r == DecodeErrorBehavior::Abort,
    {
        DecodeErrorBehavior::Abort
    }
}

/// Why a cell is being written outside of an interactive editor.
#[derive(Debug, Clone, Copy, PartialEq, Eq, Structural)]
pub enum CellWriteContext {
    /// Value is being pasted/duplicated from a different row.
    Paste,
    /// Value is being cleared by a cut/delete operation.
    Clear,
    /// Value is being written back from a direct edit session.
    Edit,
}

/// Why an empty row is being created.
#[derive(Debug, Clone, Copy, PartialEq, Eq, Structural)]
pub enum EmptyRowCreateContext {
    /// Row is created as a simple default template.
    Default,
    /// Row is created as the explicit `empty` value for a deletion.
    DeletionDefault,
    /// Row is created to be inserted as a new line.
    InsertNewLine,
}

/// A per-column text codec for one row type. A codec instance is scoped to
/// either encoding or decoding for its whole lifetime.
pub trait RowCodec<R> {
    /// The row that `create_empty_decoded_row` returns.
    open spec fn empty_row_spec(&self) -> R {
        vstd::pervasive::arbitrary()
    }

    /// The text that encoding one column of a row produces.
    open spec fn encode_spec(&self, row: R, column: int) -> Seq<char> {
        vstd::pervasive::arbitrary()
    }

    /// What decoding `text` into `row` at `column` yields: the updated row,
    /// or the error policy to apply.
    open spec fn decode_spec(&self, text: Seq<char>, column: int, row: R) -> Result<
        R,
        DecodeErrorBehavior,
    > {
        vstd::pervasive::arbitrary()
    }

    /// A fresh row to decode into.
    fn create_empty_decoded_row(&self) -> (r: R)
        ensures
            r == self.empty_row_spec(),
    ;

    /// Encode one column of `src_row` into `dst`, replacing its contents.
    /// Unsupported or erroring columns must leave `dst` empty rather than
    /// fail the whole row.
    fn encode_column(&self, src_row: &R, column: usize, dst: &mut String)
        ensures
            final(dst)@ == self.encode_spec(*src_row, column as int),
    ;

    /// Decode one column from `src_data` into `dst_row`. On error the
    /// destination row is left as it was and the policy is returned.
    fn decode_column(&self, src_data: &str, column: usize, dst_row: &mut R) -> (r: Result<
        (),
        DecodeErrorBehavior,
    >)
        ensures
            match self.decode_spec(src_data@, column as int, *old(dst_row)) {
                Ok(updated) => r is Ok && *final(dst_row) == updated,
                Err(e) => r == Err::<(), DecodeErrorBehavior>(e) && *final(dst_row) == *old(
                    dst_row,
                ),
            },
    ;
}

/// The primary capability object: how the engine asks the host about rows.
///
/// Decision methods take `&self` and are described by spec functions, so a
/// whole batch is judged against one viewer state. Lifecycle notifications
/// take `&mut self` and carry no contract.
pub trait RowViewer<R> {
    /// Number of columns of the row type.
    open spec fn num_columns_spec(&self) -> usize {
        vstd::pervasive::arbitrary()
    }

    /// Three-way comparison of two rows on one column. Need not be total:
    /// `Equal` for unsupported columns makes ties fall through to the next
    /// sort key.
    open spec fn compare_spec(&self, a: R, b: R, column: int) -> Ordering {
        vstd::pervasive::arbitrary()
    }

    /// Whether a row passes the current filter.
    open spec fn filter_spec(&self, row: R) -> bool {
        vstd::pervasive::arbitrary()
    }

    /// Whether the cell at (row id, column) may be edited.
    open spec fn is_editable_spec(&self, column: int, row: int, row_value: R) -> bool {
        vstd::pervasive::arbitrary()
    }

    /// Whether rows may be inserted at all.
    open spec fn allow_insertions_spec(&self) -> bool {
        vstd::pervasive::arbitrary()
    }

    /// Whether rows may be deleted at all.
    open spec fn allow_deletions_spec(&self) -> bool {
        vstd::pervasive::arbitrary()
    }

    /// Whether a UI-originated write `current -> next` is accepted.
    open spec fn confirm_write_spec(
        &self,
        current: R,
        next: R,
        column: int,
        context: CellWriteContext,
    ) -> bool {
        vstd::pervasive::arbitrary()
    }

    /// Whether deleting `row` is accepted.
    open spec fn confirm_deletion_spec(&self, row: R) -> bool {
        vstd::pervasive::arbitrary()
    }

    /// The row that `new_empty_row_for` creates.
    open spec fn new_empty_row_spec(&self, context: EmptyRowCreateContext) -> R {
        vstd::pervasive::arbitrary()
    }

    /// The row that `clone_row` creates.
    open spec fn clone_row_spec(&self, row: R) -> R {
        vstd::pervasive::arbitrary()
    }

    /// The row that results from copying column `column` of `src` into `dst`.
    open spec fn set_cell_spec(&self, src: R, dst: R, column: int) -> R {
        vstd::pervasive::arbitrary()
    }

    fn num_columns(&self) -> (n: usize)
        ensures
            n == self.num_columns_spec(),
    ;

    /// Display name of a column. No contract: display text is the host's to
    /// choose. The default names nothing.
    fn column_name(&self, _column: usize) -> String {
        String::new()
    }

    /// Compare two rows' contents on one column, for sorting.
    fn compare_cell(&self, row_a: &R, row_b: &R, column: usize) -> (r: Ordering)
        ensures
            r == self.compare_spec(*row_a, *row_b, column as int),
    ;

    /// Filter a single row; `false` hides it.
    fn filter_row(&self, row: &R) -> (r: bool)
        ensures
            r == self.filter_spec(*row),
    ;

    /// A fingerprint of the current filter, used to notice filter changes.
    /// No contract: the host owns what it hashes.
    fn filter_fingerprint(&self) -> u64;

    /// Whether the given cell is editable.
    fn is_editable_cell(&self, column: usize, row: usize, row_value: &R) -> (r: bool)
        ensures
            r == self.is_editable_spec(column as int, row as int, *row_value),
    ;

    fn allow_row_insertions(&self) -> (r: bool)
        ensures
            r == self.allow_insertions_spec(),
    ;

    fn allow_row_deletions(&self) -> (r: bool)
        ensures
            r == self.allow_deletions_spec(),
    ;

    /// Write-confirmation hook for cell writes that happen outside an open
    /// editor (paste, clear, duplicate). A refusal silently drops the write
    /// from its batch.
    fn confirm_cell_write_by_ui(
        &self,
        current: &R,
        next: &R,
        column: usize,
        context: CellWriteContext,
    ) -> (r: bool)
        ensures
            r == self.confirm_write_spec(*current, *next, column as int, context),
    ;

    /// Deletion-confirmation hook, asked once per row about to be removed.
    /// Never consulted during undo/redo replay.
    fn confirm_row_deletion_by_ui(&self, row: &R) -> (r: bool)
        ensures
            r == self.confirm_deletion_spec(*row),
    ;

    /// Create a new empty row for the given purpose.
    fn new_empty_row_for(&self, context: EmptyRowCreateContext) -> (r: R)
        ensures
            r == self.new_empty_row_spec(context),
    ;

    /// Duplicate an existing row.
    fn clone_row(&self, row: &R) -> (r: R)
        ensures
            r == self.clone_row_spec(*row),
    ;

    /// Copy one column's value from `src` into `dst`.
    fn set_cell_value(&self, src: &R, dst: &mut R, column: usize)
        ensures
            *final(dst) == self.set_cell_spec(*src, *old(dst), column as int),
    ;

    /// Notification: row `row_id` changed from `old_row` to `new_row`,
    /// including during undo/redo replay.
    fn on_row_updated(&mut self, row_id: usize, new_row: &R, old_row: &R);

    /// Notification: row `row_id` was inserted, including during replay.
    fn on_row_inserted(&mut self, row_id: usize, row: &R);

    /// Notification: row `row_id` was removed, including during replay.
    fn on_row_removed(&mut self, row_id: usize, row: &R);

    /// Handle a custom action: given the action id and a selection snapshot,
    /// return high-level commands to run through the undo-aware command
    /// engine. No contract: the engine validates whatever comes back.
    fn on_custom_action(&mut self, action_id: &str, selection: &SelectionSnapshot<R>) -> Vec<
        UserCommand<R>,
    >;

    /// Custom context-menu items for the current selection. No contract:
    /// menu content is the host's. The default contributes nothing.
    fn custom_context_menu_items(&mut self, _selection: &SelectionSnapshot<R>) -> Vec<
        CustomMenuItem,
    > {
        Vec::new()
    }
}

/// A read-only snapshot of the current selection handed to custom actions.
#[derive(Debug, Clone)]
pub struct SelectionSnapshot<R> {
    /// Selected rows, in visible order, as (stable id, copied value) pairs.
    pub selected_rows: Vec<(usize, R)>,
    /// Selected cells as (stable row id, logical column) pairs.
    pub selected_cells: Vec<(usize, usize)>,
    /// The interactive cell, as (stable row id, logical column), if any.
    pub interactive_cell: Option<(usize, usize)>,
    /// Number of currently visible columns.
    pub visible_columns: usize,
}

/// A menu item contributed by the viewer for the context menu.
#[derive(Debug, Clone)]
pub struct CustomMenuItem {
    /// A stable identifier used to dispatch the action.
    pub id: &'static str,
    /// Display label for the menu item.
    pub label: String,
    /// Optional icon or emoji prefix.
    pub icon: Option<&'static str>,
    /// Whether the item is enabled in the current context.
    pub enabled: bool,
}

impl CustomMenuItem {
    pub fn new(id: &'static str, label: String) -> (r: Self)
        ensures
            r.id == id,
            r.label == label,
            r.icon is None,
            r.enabled,
    {
        CustomMenuItem { id, label, icon: None, enabled: true }
    }

    pub fn icon(self, icon: &'static str) -> (r: Self)
        ensures
            r.icon == Some(icon),
            r.id == self.id,
            r.label == self.label,
            r.enabled == self.enabled,
    {
        CustomMenuItem { icon: Some(icon), ..self }
    }

    pub fn enabled(self, enabled: bool) -> (r: Self)
        ensures
            r.enabled == enabled,
            r.id == self.id,
            r.label == self.label,
            r.icon == self.icon,
    {
        CustomMenuItem { enabled, ..self }
    }
}

/// A high-level command returned by custom actions, translated into the
/// engine's internal commands and integrated with undo/redo.
#[derive(Debug, Clone)]
pub enum UserCommand<R> {
    /// Set multiple cells using a slab of row templates; each entry is
    /// (row id, column, slab index).
    SetCells { slab: Vec<R>, values: Vec<(usize, usize, usize)>, context: Option<CellWriteContext> },
    /// Replace an entire row value.
    SetRowValue(usize, R),
    /// Insert rows before the given arena position.
    InsertRows(usize, Vec<R>),
    /// Remove the given rows by stable id.
    RemoveRows(Vec<usize>),
}

/// Context provided to a custom action: the selection snapshot plus the cell
/// the action originated from, if any.
#[derive(Debug, Clone)]
pub struct CustomActionContext<R> {
    pub selection: SelectionSnapshot<R>,
    /// The cell where the action originates (row id, column), if applicable.
    pub origin_cell: Option<(usize, usize)>,
}

/// A builder-style editor that lets custom actions queue undoable changes.
/// Pending cell writes are batched into a single `SetCells` command, keeping
/// undo granularity at "one user action".
#[derive(Debug)]
pub struct CustomActionEditor<R> {
    pub cmds: Vec<UserCommand<R>>,
    pub slab: Vec<R>,
    pub values: Vec<(usize, usize, usize)>,
}

impl<R> CustomActionEditor<R> {
    /// The commands queued so far.
    pub open spec fn queued(self) -> Seq<UserCommand<R>> {
        self.cmds@
    }

    /// The pending (not yet committed) cell writes: the row templates and
    /// the (row id, column, slab index) triples.
    pub open spec fn pending(self) -> (Seq<R>, Seq<(usize, usize, usize)>) {
        (self.slab@, self.values@)
    }

    pub fn new() -> (r: Self)
        ensures
            r.queued() == Seq::<UserCommand<R>>::empty(),
            r.pending().0 == Seq::<R>::empty(),
            r.pending().1 == Seq::<(usize, usize, usize)>::empty(),
    {
        CustomActionEditor { cmds: Vec::new(), slab: Vec::new(), values: Vec::new() }
    }

    /// Queue a single cell write: `src_row`'s column `column` will be copied
    /// onto row `row_id`.
    pub fn set_cell(&mut self, row_id: usize, column: usize, src_row: R)
        ensures
            final(self).queued() == old(self).queued(),
            final(self).pending().0 == old(self).pending().0.push(src_row),
            final(self).pending().1 == old(self).pending().1.push(
                (row_id, column, old(self).pending().0.len() as usize),
            ),
    {
        proof {
            vstd::std_specs::vec::axiom_spec_len(&self.slab);
        }
        self.slab.push(src_row);
        let idx = self.slab.len() - 1;
        self.values.push((row_id, column, idx));
    }

    /// Queue a full-row replacement.
    pub fn set_row(&mut self, row_id: usize, row: R)
        ensures
            final(self).queued() == old(self).queued().push(UserCommand::SetRowValue(row_id, row)),
            final(self).pending() == old(self).pending(),
    {
        self.cmds.push(UserCommand::SetRowValue(row_id, row));
    }

    /// Queue insertion of rows before arena position `pos`.
    pub fn insert_rows(&mut self, pos: usize, rows: Vec<R>)
        ensures
            final(self).queued() == old(self).queued().push(UserCommand::InsertRows(pos, rows)),
            final(self).pending() == old(self).pending(),
    {
        self.cmds.push(UserCommand::InsertRows(pos, rows));
    }

    /// Queue removal of the given row ids.
    pub fn remove_rows(&mut self, rows: Vec<usize>)
        ensures
            final(self).queued() == old(self).queued().push(UserCommand::RemoveRows(rows)),
            final(self).pending() == old(self).pending(),
    {
        self.cmds.push(UserCommand::RemoveRows(rows));
    }

    /// Flush pending cell writes into one `SetCells` command. `Some(ctx)`
    /// marks the writes as UI-originated (paste/clear); `None` as
    /// programmatic.
    pub fn commit_cells(&mut self, context: Option<CellWriteContext>)
        ensures
            old(self).pending().1.len() == 0 ==> *final(self) == *old(self),
            old(self).pending().1.len() > 0 ==> {
                &&& final(self).queued().len() == old(self).queued().len() + 1
                &&& final(self).queued().drop_last() == old(self).queued()
                &&& (final(self).queued().last() matches UserCommand::SetCells {
                    slab,
                    values,
                    context: c,
                } && slab@ == old(self).pending().0 && values@ == old(self).pending().1 && c
                    == context)
                &&& final(self).pending().0 == Seq::<R>::empty()
                &&& final(self).pending().1 == Seq::<(usize, usize, usize)>::empty()
            },
    {
        if !self.values.is_empty() {
            let mut slab: Vec<R> = Vec::new();
            let mut values: Vec<(usize, usize, usize)> = Vec::new();
            core::mem::swap(&mut slab, &mut self.slab);
            core::mem::swap(&mut values, &mut self.values);
            self.cmds.push(UserCommand::SetCells { slab, values, context });
            proof {
                assert(self.cmds@.drop_last() =~= old(self).cmds@);
            }
        }
    }

    /// Consume the editor and return all queued commands, auto-committing
    /// pending cell writes without a context.
    pub fn into_commands(self) -> (r: Vec<UserCommand<R>>)
        ensures
            self.pending().1.len() == 0 ==> r@ == self.queued(),
            self.pending().1.len() > 0 ==> {
                &&& r@.len() == self.queued().len() + 1
                &&& r@.drop_last() == self.queued()
                &&& (r@.last() matches UserCommand::SetCells { slab, values, context } && slab@
                    == self.pending().0 && values@ == self.pending().1 && context is None)
            },
    {
        let mut this = self;
        this.commit_cells(None);
        this.cmds
    }
}

} // verus!
// UI-facing classification of input state and abstract actions. The frame
// driver translates device input into these; the engine consumes them.

verus! {

/// Coarse input state used to pick applicable actions.
#[derive(Debug, Clone)]
pub struct UiActionContext {
    pub cursor: UiCursorState,
}

/// Where the cursor currently is, from the engine's point of view.
#[derive(Debug, Clone, Copy, PartialEq, Eq, Structural)]
pub enum UiCursorState {
    Idle,
    Editing,
    SelectOne,
    SelectMany,
}

impl UiCursorState {
    pub fn is_idle(&self) -> (r: bool)
        ensures
            r == (*self is Idle),
    {
        match self {
            UiCursorState::Idle => true,
            _ => false,
        }
    }

    pub fn is_editing(&self) -> (r: bool)
        ensures
            r == (*self is Editing),
    {
        match self {
            UiCursorState::Editing => true,
            _ => false,
        }
    }

    pub fn is_selecting(&self) -> (r: bool)
        ensures
            r == (*self is SelectOne || *self is SelectMany),
    {
        match self {
            UiCursorState::SelectOne => true,
            UiCursorState::SelectMany => true,
            _ => false,
        }
    }
}

/// An abstract user interaction, already classified by the frame driver.
#[derive(Debug, Clone, Copy, PartialEq, Eq, Hash)]
pub enum UiAction {
    SelectionStartEditing,
    CancelEdition,
    CommitEdition,
    CommitEditionAndMove(MoveDirection),
    Undo,
    Redo,
    MoveSelection(MoveDirection),
    CopySelection,
    CutSelection,
    PasteInPlace,
    PasteInsert,
    DuplicateRow,
    DeleteSelection,
    DeleteRow,
    NavPageDown,
    NavPageUp,
    NavTop,
    NavBottom,
    SelectionDuplicateValues,
    SelectAll,
    /// Custom action contributed by the viewer; carries a stable action id.
    Custom(&'static str),
}

#[derive(Debug, Clone, Copy, PartialEq, Eq, Hash, Structural)]
pub enum MoveDirection {
    Up,
    Down,
    Left,
    Right,
}

} // verus!
