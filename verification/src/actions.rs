//! Abstract-action dispatch: the frame driver feeds already-classified
//! actions; each becomes zero or more commands through the undo-aware
//! engine. Clipboard actions (copy, cut, paste) are not routed here: they
//! need the codec and the clipboard text, so the host calls the dedicated
//! clipboard operations directly.

use vstd::prelude::*;

use crate::clipboard::{clear_triples, covered_cells, selected_row_ids};
use crate::engine::{
    DataTable, EngineError, SortKey, TableSnap, VisSelection, commit_edit_post, insert_rows_post,
    redo_post, remove_rows_post, seq_pos, set_cells_post, set_row_value_post, set_selection_post,
    set_sort_post, set_visible_columns_post, start_edit_post, undo_post, vis_cols_valid,
};
use crate::selection::row_col_of;
use crate::viewer::{
    CellWriteContext, MoveDirection, RowViewer, SelectionSnapshot, UiAction, UserCommand,
};

verus! {

/// The interactive cell as a (visible row, visible column) pair; the origin
/// when nothing is focused. The row is not yet clamped to the grid.
pub open spec fn interactive_pos_spec<R>(s: TableSnap<R>) -> (int, int) {
    let ncols = s.vis_cols.len() as int;
    match s.interactive {
        Some(l) => (
            crate::selection::row_of_linear(l as int, ncols),
            crate::selection::col_of_linear(l as int, ncols),
        ),
        None => (0, 0),
    }
}

/// The focused visible row, clamped into a grid of `visible_len` rows
/// (meaningful when the grid is nonempty).
pub open spec fn focus_row<R>(s: TableSnap<R>, visible_len: int) -> int {
    let r = interactive_pos_spec(s).0;
    if r >= visible_len {
        visible_len - 1
    } else {
        r
    }
}

/// Where a focus move lands: the clamped focus cell stepped by the
/// direction, kept inside the grid.
pub open spec fn move_target<R>(
    s: TableSnap<R>,
    visible_len: int,
    direction: MoveDirection,
    step: int,
) -> (int, int) {
    let ncols = s.vis_cols.len() as int;
    let c = interactive_pos_spec(s).1;
    let r = focus_row(s, visible_len);
    match direction {
        MoveDirection::Up => (if r >= step { r - step } else { 0 }, c),
        MoveDirection::Down => (
            if r + step < visible_len {
                r + step
            } else {
                visible_len - 1
            },
            c,
        ),
        MoveDirection::Left => (r, if c > 0 { c - 1 } else { 0 }),
        MoveDirection::Right => (r, if c + 1 < ncols { c + 1 } else { ncols - 1 }),
    }
}

/// Where an edge jump lands: the first or last visible row, keeping the
/// focused column.
pub open spec fn nav_target<R>(s: TableSnap<R>, visible_len: int, to_bottom: bool) -> (int, int) {
    (if to_bottom { visible_len - 1 } else { 0 }, interactive_pos_spec(s).1)
}

/// What placing the focus on one grid cell does: the selection collapses to
/// that single cell (one undoable action); a linear index beyond the machine
/// is refused; an empty grid is left alone.
pub open spec fn focus_move_post<R>(
    pre: DataTable<R>,
    post: DataTable<R>,
    target: (int, int),
    r: Result<(), EngineError>,
) -> bool {
    if pre.visible_rows@.len() == 0 {
        r is Ok && post == pre
    } else {
        let l = target.0 * pre.snap().vis_cols.len() + target.1;
        if l <= usize::MAX {
            &&& r is Ok
            &&& set_selection_post(
                pre,
                post,
                seq![VisSelection(l as usize, l as usize)],
                Some(l as usize),
            )
        } else {
            r == Err::<(), EngineError>(EngineError::CapacityExceeded) && post == pre
        }
    }
}

/// What duplicating the focused row does: a viewer-made copy is spliced in
/// right after it (one undoable action); an empty grid is left alone.
pub open spec fn duplicate_row_post<R, V: RowViewer<R>>(
    v: V,
    pre: DataTable<R>,
    post: DataTable<R>,
    r: Result<(), EngineError>,
) -> bool {
    if pre.visible_rows@.len() == 0 {
        r is Ok && post == pre
    } else {
        let id = pre.visible_rows@[focus_row(pre.snap(), pre.visible_rows@.len() as int)];
        insert_rows_post(
            v,
            pre,
            post,
            (seq_pos(pre.snap().ids, id) + 1) as usize,
            seq![v.clone_row_spec(pre.snap().row(id))],
            r,
        )
    }
}

/// The rows a delete acts on: the selected rows, else the focused row, else
/// nothing.
pub open spec fn delete_targets<R>(pre: DataTable<R>) -> Seq<usize> {
    let sel = selected_row_ids(
        pre.visible_rows@,
        pre.snap().ranges,
        pre.snap().vis_cols.len() as int,
        pre.visible_rows@.len() as int,
    );
    if sel.len() > 0 {
        sel
    } else if pre.visible_rows@.len() > 0 {
        seq![pre.visible_rows@[focus_row(pre.snap(), pre.visible_rows@.len() as int)]]
    } else {
        Seq::empty()
    }
}

/// What deleting the selected (or focused) rows does.
pub open spec fn delete_selection_rows_post<R, V: RowViewer<R>>(
    v: V,
    pre: DataTable<R>,
    post: DataTable<R>,
    r: Result<(), EngineError>,
) -> bool {
    if delete_targets(pre).len() == 0 {
        r is Ok && post == pre
    } else {
        remove_rows_post(v, pre, post, delete_targets(pre), r)
    }
}

/// What filling the selection from the focused row does: every covered cell
/// receives its column of a copy of the focused row, through the ordinary
/// batched hook-confirmed write.
pub open spec fn fill_selection_post<R, V: RowViewer<R>>(
    v: V,
    pre: DataTable<R>,
    post: DataTable<R>,
    r: Result<(), EngineError>,
) -> bool {
    if pre.visible_rows@.len() == 0 {
        r is Ok && post == pre
    } else {
        let id = pre.visible_rows@[focus_row(pre.snap(), pre.visible_rows@.len() as int)];
        &&& r is Ok
        &&& set_cells_post(
            v,
            pre,
            post,
            seq![v.clone_row_spec(pre.snap().row(id))],
            clear_triples(pre.snap(), pre.visible_rows@),
            CellWriteContext::Paste,
            r,
        )
    }
}

/// What clearing the selected cells does (the `DeleteSelection` action).
pub open spec fn clear_selection_post<R, V: RowViewer<R>>(
    v: V,
    pre: DataTable<R>,
    post: DataTable<R>,
    r: Result<(), EngineError>,
) -> bool {
    &&& r is Ok
    &&& set_cells_post(
        v,
        pre,
        post,
        seq![v.new_empty_row_spec(crate::viewer::EmptyRowCreateContext::DeletionDefault)],
        clear_triples(pre.snap(), pre.visible_rows@),
        CellWriteContext::Clear,
        r,
    )
}

/// What beginning an edit at the focused cell does.
pub open spec fn start_edit_focus_post<R, V: RowViewer<R>>(
    v: V,
    pre: DataTable<R>,
    post: DataTable<R>,
    r: Result<(), EngineError>,
) -> bool {
    if pre.visible_rows@.len() == 0 {
        r is Ok && post == pre
    } else {
        start_edit_post(
            v,
            pre,
            post,
            pre.visible_rows@[focus_row(pre.snap(), pre.visible_rows@.len() as int)],
            pre.snap().vis_cols[interactive_pos_spec(pre.snap()).1],
            r,
        )
    }
}

/// What one translated high-level command does: exactly what the engine
/// operation it names does, judged against the viewer state it ran under.
pub open spec fn user_command_step<R, V: RowViewer<R>>(
    v: V,
    pre: DataTable<R>,
    post: DataTable<R>,
    cmd: UserCommand<R>,
    r: Result<(), EngineError>,
) -> bool {
    match cmd {
        UserCommand::SetCells { slab, values, context } => set_cells_post(
            v,
            pre,
            post,
            slab@,
            values@,
            match context {
                Some(c) => c,
                None => CellWriteContext::Paste,
            },
            r,
        ),
        UserCommand::SetRowValue(id, value) => set_row_value_post(pre, post, id, value, r),
        UserCommand::InsertRows(pos, rows) => insert_rows_post(v, pre, post, pos, rows@, r),
        UserCommand::RemoveRows(ids) => remove_rows_post(v, pre, post, ids@, r),
    }
}

/// A run of high-level commands, each applied in order under
/// `user_command_step` (against the viewer state it saw).
pub open spec fn user_commands_applied<R, V: RowViewer<R>>(
    pre: DataTable<R>,
    post: DataTable<R>,
    cmds: Seq<UserCommand<R>>,
) -> bool
    decreases cmds.len(),
{
    if cmds.len() == 0 {
        post == pre
    } else {
        exists|mid: DataTable<R>, v: V, r: Result<(), EngineError>|
            user_command_step(v, pre, mid, cmds.first(), r) && user_commands_applied::<R, V>(
                mid,
                post,
                cmds.drop_first(),
            )
    }
}

/// Extending a command run by one applied command extends the chain.
pub proof fn lemma_user_commands_snoc<R, V: RowViewer<R>>(
    pre: DataTable<R>,
    mid: DataTable<R>,
    post: DataTable<R>,
    cmds: Seq<UserCommand<R>>,
    c: UserCommand<R>,
    v: V,
    r: Result<(), EngineError>,
)
    requires
        user_commands_applied::<R, V>(pre, mid, cmds),
        user_command_step(v, mid, post, c, r),
    ensures
        user_commands_applied::<R, V>(pre, post, cmds.push(c)),
    decreases cmds.len(),
{
    if cmds.len() == 0 {
        assert(cmds.push(c).first() == c);
        assert(cmds.push(c).drop_first() =~= Seq::<UserCommand<R>>::empty());
        assert(user_commands_applied::<R, V>(post, post, cmds.push(c).drop_first()));
        assert(user_command_step(v, pre, post, c, r));
    } else {
        let (m1, v1, r1) = choose|m1: DataTable<R>, v1: V, r1: Result<(), EngineError>|
            user_command_step(v1, pre, m1, cmds.first(), r1) && user_commands_applied::<R, V>(
                m1,
                mid,
                cmds.drop_first(),
            );
        lemma_user_commands_snoc::<R, V>(m1, mid, post, cmds.drop_first(), c, v, r);
        assert(cmds.push(c).first() == cmds.first());
        assert(cmds.push(c).drop_first() =~= cmds.drop_first().push(c));
        assert(user_command_step(v1, pre, m1, cmds.push(c).first(), r1)
            && user_commands_applied::<R, V>(m1, post, cmds.push(c).drop_first()));
    }
}

impl<R> DataTable<R> {
    /// Run one high-level command from a custom action through the
    /// undo-aware engine. A `SetCells` without a context counts as a paste-
    /// like UI write.
    pub fn apply_user_command<V: RowViewer<R>>(
        &mut self,
        viewer: &mut V,
        cmd: UserCommand<R>,
    ) -> (r: Result<(), EngineError>)
        requires
            old(self).wf(),
        ensures
            final(self).wf(),
            user_command_step(*old(viewer), *old(self), *final(self), cmd, r),
    {
        match cmd {
            UserCommand::SetCells { slab, values, context } => {
                let ctx = match context {
                    Some(c) => c,
                    None => CellWriteContext::Paste,
                };
                self.set_cells(viewer, &slab, &values, ctx)
            },
            UserCommand::SetRowValue(id, value) => self.set_row_value(viewer, id, value),
            UserCommand::InsertRows(pos, rows) => self.insert_rows(viewer, pos, rows),
            UserCommand::RemoveRows(ids) => self.remove_rows(viewer, &ids),
        }
    }

    /// A read-only snapshot of the selection for custom actions: selected
    /// rows (with copies of their values), selected cells, the interactive
    /// cell, and the visible column count — all resolved against the
    /// current projection.
    pub fn selection_snapshot<V: RowViewer<R>>(&self, viewer: &V) -> (snap: SelectionSnapshot<R>)
        requires
            self.wf(),
            !self.projection_dirty,
        ensures
            snap.selected_cells@ == crate::clipboard::covered_cells(
                self.snap(),
                self.visible_rows@,
            ),
            snap.visible_columns == self.snap().vis_cols.len(),
            snap.selected_rows@.len() == crate::clipboard::selected_row_ids(
                self.visible_rows@,
                self.snap().ranges,
                self.snap().vis_cols.len() as int,
                self.visible_rows@.len() as int,
            ).len(),
            forall|i: int|
                0 <= i < snap.selected_rows@.len() ==> (#[trigger] snap.selected_rows@[i]).0
                    == crate::clipboard::selected_row_ids(
                    self.visible_rows@,
                    self.snap().ranges,
                    self.snap().vis_cols.len() as int,
                    self.visible_rows@.len() as int,
                )[i],
            snap.interactive_cell == (match self.snap().interactive {
                Some(_) => if interactive_pos_spec(self.snap()).0 < self.visible_rows@.len() {
                    Some(
                        (
                            self.visible_rows@[interactive_pos_spec(self.snap()).0],
                            self.snap().vis_cols[interactive_pos_spec(self.snap()).1],
                        ),
                    )
                } else {
                    None::<(usize, usize)>
                },
                None => None::<(usize, usize)>,
            }),
    {
        let ids = self.selected_rows();
        let mut selected_rows: Vec<(usize, R)> = Vec::new();
        let n = ids.len();
        let ghost goal = ids@;
        let mut i: usize = 0;
        while i < n
            invariant
                self.wf(),
                n == ids@.len(),
                goal == ids@,
                i <= n,
                forall|k: int| 0 <= k < n ==> self.snap().live(#[trigger] ids@[k]),
                selected_rows@.len() == i,
                forall|k: int| 0 <= k < i ==> (#[trigger] selected_rows@[k]).0 == goal[k],
            decreases n - i,
        {
            let id = ids[i];
            let value = viewer.clone_row(self.store.get(id));
            selected_rows.push((id, value));
            i = i + 1;
        }
        let selected_cells = self.covered_cells_list();
        let ncols = self.vis_cols.len();
        let interactive_cell = match &self.selection.interactive {
            Some(l) => {
                let (r, c) = row_col_of(*l, ncols);
                if r < self.visible_rows.len() {
                    Some((self.visible_rows[r], self.vis_cols[c]))
                } else {
                    None
                }
            },
            None => None,
        };
        SelectionSnapshot { selected_rows, selected_cells, interactive_cell, visible_columns: ncols }
    }

    /// Dispatch a custom action: hand the viewer a selection snapshot, then
    /// run every command it returns through the undo-aware engine.
    pub fn run_custom_action<V: RowViewer<R>>(&mut self, viewer: &mut V, action_id: &str) -> (r:
        Result<(), EngineError>)
        requires
            old(self).wf(),
            !old(self).projection_dirty,
        ensures
            final(self).wf(),
            exists|cmds: Seq<UserCommand<R>>|
                #[trigger] user_commands_applied::<R, V>(*old(self), *final(self), cmds),
    {
        let snapshot = self.selection_snapshot(&*viewer);
        let mut cmds = viewer.on_custom_action(action_id, &snapshot);
        let mut result: Result<(), EngineError> = Ok(());
        let ghost mut done: Seq<UserCommand<R>> = Seq::empty();
        proof {
            assert(user_commands_applied::<R, V>(*old(self), *self, done));
        }
        while cmds.len() > 0
            invariant
                self.wf(),
                old(self).wf(),
                user_commands_applied::<R, V>(*old(self), *self, done),
            decreases cmds.len(),
        {
            let cmd = cmds.remove(0);
            let ghost gcmd = cmd;
            let ghost vpre = *viewer;
            let ghost spre = *self;
            let r = self.apply_user_command(viewer, cmd);
            proof {
                lemma_user_commands_snoc::<R, V>(*old(self), spre, *self, done, gcmd, vpre, r);
                done = done.push(gcmd);
            }
            if r.is_err() && result.is_ok() {
                result = r;
            }
        }
        result
    }

    /// The interactive cell as a visible (row, column) pair, clamped into
    /// the current grid; the origin when nothing is focused.
    pub fn interactive_pos(&self) -> (rc: (usize, usize))
        requires
            self.wf(),
        ensures
            rc.0 as int == interactive_pos_spec(self.snap()).0,
            rc.1 as int == interactive_pos_spec(self.snap()).1,
            rc.1 < self.snap().vis_cols.len(),
    {
        let ncols = self.vis_cols.len();
        match &self.selection.interactive {
            Some(l) => row_col_of(*l, ncols),
            None => (0, 0),
        }
    }

    /// Move the focus (and collapse the selection onto it) by one step, or
    /// by `page_rows` rows for page navigation, clamped to the grid.
    pub fn move_selection<V: RowViewer<R>>(
        &mut self,
        viewer: &mut V,
        direction: MoveDirection,
        step_rows: usize,
    ) -> (r: Result<(), EngineError>)
        requires
            old(self).wf(),
            !old(self).projection_dirty,
        ensures
            final(self).wf(),
            focus_move_post(
                *old(self),
                *final(self),
                move_target(
                    old(self).snap(),
                    old(self).visible_rows@.len() as int,
                    direction,
                    step_rows as int,
                ),
                r,
            ),
            !final(self).projection_dirty,
    {
        let nvr = self.visible_rows.len();
        let nvc = self.vis_cols.len();
        if nvr == 0 {
            return Ok(());
        }
        let (mut r, mut c) = self.interactive_pos();
        if r >= nvr {
            r = nvr - 1;
        }
        match direction {
            MoveDirection::Up => {
                r = if r >= step_rows {
                    r - step_rows
                } else {
                    0
                };
            },
            MoveDirection::Down => {
                r = if r <= usize::MAX - step_rows && r + step_rows < nvr {
                    r + step_rows
                } else {
                    nvr - 1
                };
            },
            MoveDirection::Left => {
                c = if c > 0 {
                    c - 1
                } else {
                    0
                };
            },
            MoveDirection::Right => {
                c = if c + 1 < nvc {
                    c + 1
                } else {
                    nvc - 1
                };
            },
        }
        let l = match r.checked_mul(nvc) {
            Some(x) => match x.checked_add(c) {
                Some(l) => l,
                None => {
                    return Err(EngineError::CapacityExceeded);
                },
            },
            None => {
                return Err(EngineError::CapacityExceeded);
            },
        };
        let mut ranges: Vec<VisSelection> = Vec::new();
        ranges.push(VisSelection(l, l));
        self.set_selection(viewer, ranges, Some(l));
        Ok(())
    }

    /// Jump the focus to the first or last visible row.
    pub fn nav_edge<V: RowViewer<R>>(&mut self, viewer: &mut V, to_bottom: bool) -> (r: Result<
        (),
        EngineError,
    >)
        requires
            old(self).wf(),
            !old(self).projection_dirty,
        ensures
            final(self).wf(),
            focus_move_post(
                *old(self),
                *final(self),
                nav_target(old(self).snap(), old(self).visible_rows@.len() as int, to_bottom),
                r,
            ),
            !final(self).projection_dirty,
    {
        let nvr = self.visible_rows.len();
        let nvc = self.vis_cols.len();
        if nvr == 0 {
            return Ok(());
        }
        let (_, c) = self.interactive_pos();
        let r = if to_bottom {
            nvr - 1
        } else {
            0
        };
        let l = match r.checked_mul(nvc) {
            Some(x) => match x.checked_add(c) {
                Some(l) => l,
                None => {
                    return Err(EngineError::CapacityExceeded);
                },
            },
            None => {
                return Err(EngineError::CapacityExceeded);
            },
        };
        let mut ranges: Vec<VisSelection> = Vec::new();
        ranges.push(VisSelection(l, l));
        self.set_selection(viewer, ranges, Some(l));
        Ok(())
    }

    /// Duplicate the focused row: a viewer-made copy is inserted right after
    /// it, as one undoable action (when the viewer allows insertions).
    pub fn duplicate_row<V: RowViewer<R>>(&mut self, viewer: &mut V) -> (r: Result<
        (),
        EngineError,
    >)
        requires
            old(self).wf(),
            !old(self).projection_dirty,
        ensures
            final(self).wf(),
            duplicate_row_post(*old(viewer), *old(self), *final(self), r),
    {
        let nvr = self.visible_rows.len();
        if nvr == 0 {
            return Ok(());
        }
        let (mut r, _) = self.interactive_pos();
        if r >= nvr {
            r = nvr - 1;
        }
        let id = self.visible_rows[r];
        proof {
            crate::engine::lemma_ids_bounded(self.snap());
            assert(self.snap().live(id));
        }
        let copy = viewer.clone_row(self.store.get(id));
        let pos = self.store.position_of(id);
        proof {
            crate::engine::lemma_seq_pos(self.snap().ids, id, pos as int);
        }
        let mut rows: Vec<R> = Vec::new();
        rows.push(copy);
        proof {
            assert(rows@ =~= seq![old(viewer).clone_row_spec(old(self).snap().row(id))]);
        }
        self.insert_rows(viewer, pos + 1, rows)
    }

    /// Remove the focused row (or all selected rows if any), asking the
    /// viewer's deletion hook per row, as one undoable action.
    pub fn delete_rows_of_selection<V: RowViewer<R>>(&mut self, viewer: &mut V) -> (r: Result<
        (),
        EngineError,
    >)
        requires
            old(self).wf(),
            !old(self).projection_dirty,
        ensures
            final(self).wf(),
            delete_selection_rows_post(*old(viewer), *old(self), *final(self), r),
    {
        let mut ids = self.selected_rows();
        if ids.is_empty() {
            let nvr = self.visible_rows.len();
            if nvr == 0 {
                proof {
                    assert(delete_targets(*old(self)).len() == 0);
                }
                return Ok(());
            }
            let (mut r, _) = self.interactive_pos();
            if r >= nvr {
                r = nvr - 1;
            }
            ids.push(self.visible_rows[r]);
            proof {
                assert(ids@ =~= delete_targets(*old(self)));
            }
        }
        self.remove_rows(viewer, &ids)
    }

    /// Fill every selected cell with the corresponding column of the focused
    /// row (batched, hook-confirmed, one undoable action).
    pub fn duplicate_selection_values<V: RowViewer<R>>(&mut self, viewer: &mut V) -> (r: Result<
        (),
        EngineError,
    >)
        requires
            old(self).wf(),
            !old(self).projection_dirty,
        ensures
            final(self).wf(),
            fill_selection_post(*old(viewer), *old(self), *final(self), r),
    {
        let ghost s0 = self.snap();
        let nvr = self.visible_rows.len();
        if nvr == 0 {
            return Ok(());
        }
        let (mut r, _) = self.interactive_pos();
        if r >= nvr {
            r = nvr - 1;
        }
        let src_id = self.visible_rows[r];
        proof {
            assert(self.snap().live(src_id));
        }
        let src = viewer.clone_row(self.store.get(src_id));
        let mut slab: Vec<R> = Vec::new();
        slab.push(src);
        let cells = self.covered_cells_list();
        let mut values: Vec<(usize, usize, usize)> = Vec::new();
        let n = cells.len();
        let mut i: usize = 0;
        while i < n
            invariant
                n == cells@.len(),
                i <= n,
                *self == *old(self),
                old(self).wf(),
                values@.len() == i,
                forall|k: int|
                    0 <= k < i ==> #[trigger] values@[k] == ((cells@[k]).0, (cells@[k]).1, 0usize),
            decreases n - i,
        {
            let (id, col) = cells[i];
            values.push((id, col, 0));
            i = i + 1;
        }
        proof {
            assert(slab@ =~= seq![old(viewer).clone_row_spec(old(self).snap().row(src_id))]);
            assert(values@ =~= clear_triples(s0, self.visible_rows@));
            crate::clipboard::lemma_covered_cells_upto_valid(
                s0,
                self.visible_rows@,
                self.visible_rows@.len() - 1,
                s0.vis_cols.len() as int,
            );
            crate::clipboard::lemma_no_write_error(s0, slab@, values@);
        }
        self.set_cells(viewer, &slab, &values, CellWriteContext::Paste)
    }

    /// Begin editing the focused cell.
    pub fn start_edit_at_focus<V: RowViewer<R>>(&mut self, viewer: &mut V) -> (r: Result<
        (),
        EngineError,
    >)
        requires
            old(self).wf(),
            !old(self).projection_dirty,
        ensures
            final(self).wf(),
            start_edit_focus_post(*old(viewer), *old(self), *final(self), r),
    {
        let nvr = self.visible_rows.len();
        if nvr == 0 {
            return Ok(());
        }
        let (mut r, c) = self.interactive_pos();
        if r >= nvr {
            r = nvr - 1;
        }
        let id = self.visible_rows[r];
        let col = self.vis_cols[c];
        self.start_edit(viewer, id, col)
    }

    /// What one dispatched abstract action does: each action variant is tied
    /// to the exact effect of the operation it routes to. Clipboard actions
    /// are not routed here and are refused unchanged.
    pub open spec fn ui_action_post<V: RowViewer<R>>(
        v: V,
        pre: DataTable<R>,
        post: DataTable<R>,
        action: UiAction,
        page_rows: usize,
        r: Result<(), EngineError>,
    ) -> bool {
        match action {
            UiAction::SelectionStartEditing => start_edit_focus_post(v, pre, post, r),
            UiAction::CancelEdition => r is Ok && post.edit is Idle && post.snap() == pre.snap()
                && post.undo == pre.undo && post.redo == pre.redo,
            UiAction::CommitEdition => r is Ok && exists|committed: bool|
                #[trigger] commit_edit_post(v, pre, post, committed),
            UiAction::CommitEditionAndMove(_) => {
                &&& post.edit is Idle
                &&& exists|mid: DataTable<R>, committed: bool|
                    {
                        &&& #[trigger] commit_edit_post(v, pre, mid, committed)
                        &&& post.snap().table == mid.snap().table
                        &&& post.snap().ids == mid.snap().ids
                        &&& post.snap().sort == mid.snap().sort
                        &&& post.snap().vis_cols == mid.snap().vis_cols
                    }
            },
            UiAction::Undo => r is Ok && undo_post(pre, post, pre.undo@.len() > 0),
            UiAction::Redo => r is Ok && redo_post(pre, post, pre.redo@.len() > 0),
            UiAction::MoveSelection(direction) => focus_move_post(
                pre,
                post,
                move_target(pre.snap(), pre.visible_rows@.len() as int, direction, 1),
                r,
            ),
            UiAction::NavPageUp => focus_move_post(
                pre,
                post,
                move_target(
                    pre.snap(),
                    pre.visible_rows@.len() as int,
                    MoveDirection::Up,
                    page_rows as int,
                ),
                r,
            ),
            UiAction::NavPageDown => focus_move_post(
                pre,
                post,
                move_target(
                    pre.snap(),
                    pre.visible_rows@.len() as int,
                    MoveDirection::Down,
                    page_rows as int,
                ),
                r,
            ),
            UiAction::NavTop => focus_move_post(
                pre,
                post,
                nav_target(pre.snap(), pre.visible_rows@.len() as int, false),
                r,
            ),
            UiAction::NavBottom => focus_move_post(
                pre,
                post,
                nav_target(pre.snap(), pre.visible_rows@.len() as int, true),
                r,
            ),
            UiAction::SelectAll => crate::selection::select_all_post(pre, post, r),
            UiAction::DuplicateRow => duplicate_row_post(v, pre, post, r),
            UiAction::DeleteRow => delete_selection_rows_post(v, pre, post, r),
            UiAction::DeleteSelection => clear_selection_post(v, pre, post, r),
            UiAction::SelectionDuplicateValues => fill_selection_post(v, pre, post, r),
            UiAction::Custom(_) => exists|cmds: Seq<UserCommand<R>>|
                #[trigger] user_commands_applied::<R, V>(pre, post, cmds),
            UiAction::CopySelection => r == Err::<(), EngineError>(EngineError::NotAllowed)
                && post == pre,
            UiAction::CutSelection => r == Err::<(), EngineError>(EngineError::NotAllowed)
                && post == pre,
            UiAction::PasteInPlace => r == Err::<(), EngineError>(EngineError::NotAllowed)
                && post == pre,
            UiAction::PasteInsert => r == Err::<(), EngineError>(EngineError::NotAllowed)
                && post == pre,
        }
    }

    /// Apply one abstract action from the frame driver. `page_rows` is the
    /// page size for page navigation. Clipboard actions are not handled
    /// here (the host calls the clipboard operations, which need the codec
    /// and the clipboard text); they answer `NotAllowed`.
    pub fn apply_ui_action<V: RowViewer<R>>(
        &mut self,
        viewer: &mut V,
        action: UiAction,
        page_rows: usize,
    ) -> (r: Result<(), EngineError>)
        requires
            old(self).wf(),
            !old(self).projection_dirty,
        ensures
            final(self).wf(),
            Self::ui_action_post(*old(viewer), *old(self), *final(self), action, page_rows, r),
    {
        match action {
            UiAction::SelectionStartEditing => self.start_edit_at_focus(viewer),
            UiAction::CancelEdition => {
                self.cancel_edit();
                Ok(())
            },
            UiAction::CommitEdition => {
                let committed = self.commit_edit(viewer);
                proof {
                    assert(commit_edit_post(*old(viewer), *old(self), *self, committed));
                }
                Ok(())
            },
            UiAction::CommitEditionAndMove(direction) => {
                let committed = self.commit_edit(viewer);
                let ghost mid = *self;
                let ghost committed_g = committed;
                self.force_refresh(viewer);
                let out = self.move_selection(viewer, direction, 1);
                proof {
                    assert(commit_edit_post(*old(viewer), *old(self), mid, committed_g));
                    assert(self.snap().table == mid.snap().table);
                    assert(self.snap().ids == mid.snap().ids);
                    assert(self.snap().sort == mid.snap().sort);
                    assert(self.snap().vis_cols == mid.snap().vis_cols);
                }
                out
            },
            UiAction::Undo => {
                let _ = self.undo_one(viewer);
                Ok(())
            },
            UiAction::Redo => {
                let _ = self.redo_one(viewer);
                Ok(())
            },
            UiAction::MoveSelection(direction) => self.move_selection(viewer, direction, 1),
            UiAction::NavPageUp => self.move_selection(viewer, MoveDirection::Up, page_rows),
            UiAction::NavPageDown => self.move_selection(viewer, MoveDirection::Down, page_rows),
            UiAction::NavTop => self.nav_edge(viewer, false),
            UiAction::NavBottom => self.nav_edge(viewer, true),
            UiAction::SelectAll => self.select_all(viewer),
            UiAction::DuplicateRow => self.duplicate_row(viewer),
            UiAction::DeleteRow => self.delete_rows_of_selection(viewer),
            UiAction::DeleteSelection => self.clear_selected_cells(viewer),
            UiAction::SelectionDuplicateValues => self.duplicate_selection_values(viewer),
            UiAction::Custom(action_id) => self.run_custom_action(viewer, action_id),
            UiAction::CopySelection => Err(EngineError::NotAllowed),
            UiAction::CutSelection => Err(EngineError::NotAllowed),
            UiAction::PasteInPlace => Err(EngineError::NotAllowed),
            UiAction::PasteInsert => Err(EngineError::NotAllowed),
        }
    }
}

impl<R> DataTable<R> {
    /// Export the UI state (sort, column order, selection) as plain values;
    /// the engine instance itself is the persisted unit, and this pair makes
    /// that persistence explicit rather than an ambient storage lookup.
    pub fn export_ui_state(&self) -> (state: (Vec<SortKey>, Vec<usize>, Vec<VisSelection>, Option<
        usize,
    >))
        ensures
            state.0@ == self.snap().sort,
            state.1@ == self.snap().vis_cols,
            state.2@ == self.snap().ranges,
            state.3 == self.snap().interactive,
    {
        (
            self.sort.clone(),
            self.vis_cols.clone(),
            self.selection.ranges.clone(),
            match &self.selection.interactive {
                Some(l) => Some(*l),
                None => None,
            },
        )
    }

    /// Import a previously exported UI state, through the ordinary command
    /// path (one undoable action per component). An invalid component is
    /// rejected with the usual integration error and skipped; the valid
    /// components are installed regardless.
    pub fn import_ui_state<V: RowViewer<R>>(
        &mut self,
        viewer: &mut V,
        sort: Vec<SortKey>,
        vis_cols: Vec<usize>,
        ranges: Vec<VisSelection>,
        interactive: Option<usize>,
    ) -> (r: Result<(), EngineError>)
        requires
            old(self).wf(),
        ensures
            final(self).wf(),
            r is Ok <==> ((forall|i: int|
                0 <= i < sort@.len() ==> (#[trigger] sort@[i]).column < old(self).num_columns)
                && vis_cols_valid(vis_cols@, old(self).num_columns)),
            final(self).snap().sort == (if forall|i: int|
                0 <= i < sort@.len() ==> (#[trigger] sort@[i]).column < old(self).num_columns {
                sort@
            } else {
                old(self).snap().sort
            }),
            final(self).snap().vis_cols == (if vis_cols_valid(vis_cols@, old(self).num_columns) {
                vis_cols@
            } else {
                old(self).snap().vis_cols
            }),
            final(self).snap().table == old(self).snap().table,
            final(self).snap().ids == old(self).snap().ids,
            final(self).snap().ranges.len() == ranges@.len(),
            forall|i: int|
                0 <= i < ranges@.len() ==> #[trigger] final(self).snap().ranges[i]
                    == crate::engine::normalized_range(ranges@[i]),
            final(self).snap().interactive == interactive,
    {
        let mut result: Result<(), EngineError> = Ok(());
        if let Err(e) = self.set_sort(viewer, sort) {
            result = Err(e);
        }
        if let Err(e) = self.set_visible_columns(viewer, vis_cols) {
            if result.is_ok() {
                result = Err(e);
            }
        }
        self.set_selection(viewer, ranges, interactive);
        result
    }
}

/// The header-click sort cycle for one column: not a key yet -> ascending
/// -> descending -> removed; every other key keeps its place.
pub open spec fn cycle_sort_spec(sort: Seq<SortKey>, column: usize) -> Seq<SortKey>
    decreases sort.len(),
{
    if sort.len() == 0 {
        seq![SortKey { column, ascending: true }]
    } else if sort.first().column == column {
        if sort.first().ascending {
            seq![SortKey { column, ascending: false }] + sort.drop_first()
        } else {
            sort.drop_first()
        }
    } else {
        seq![sort.first()] + cycle_sort_spec(sort.drop_first(), column)
    }
}

/// When `column`'s first key sits at position `i`, the cycle flips or
/// removes exactly that key in place.
proof fn lemma_cycle_sort_at(sort: Seq<SortKey>, column: usize, i: int)
    requires
        0 <= i < sort.len(),
        sort[i].column == column,
        forall|j: int| 0 <= j < i ==> (#[trigger] sort[j]).column != column,
    ensures
        sort[i].ascending ==> cycle_sort_spec(sort, column) == sort.update(
            i,
            SortKey { column, ascending: false },
        ),
        !sort[i].ascending ==> cycle_sort_spec(sort, column) == sort.remove(i),
    decreases sort.len(),
{
    if i == 0 {
        if sort[0].ascending {
            assert(seq![SortKey { column, ascending: false }] + sort.drop_first() =~= sort.update(
                0,
                SortKey { column, ascending: false },
            ));
        } else {
            assert(sort.drop_first() =~= sort.remove(0));
        }
    } else {
        assert(sort.first().column != column) by {
            assert(sort[0] == sort.first());
        }
        assert(forall|j: int|
            0 <= j < i - 1 ==> (#[trigger] sort.drop_first()[j]).column != column) by {
            assert(forall|j: int|
                0 <= j < i - 1 ==> #[trigger] sort.drop_first()[j] == sort[j + 1]);
        }
        assert(sort.drop_first()[i - 1] == sort[i]);
        lemma_cycle_sort_at(sort.drop_first(), column, i - 1);
        if sort[i].ascending {
            assert(seq![sort.first()] + sort.drop_first().update(
                i - 1,
                SortKey { column, ascending: false },
            ) =~= sort.update(i, SortKey { column, ascending: false }));
        } else {
            assert(seq![sort.first()] + sort.drop_first().remove(i - 1) =~= sort.remove(i));
        }
    }
}

/// When `column` is not a key, the cycle appends it ascending.
proof fn lemma_cycle_sort_absent(sort: Seq<SortKey>, column: usize)
    requires
        forall|j: int| 0 <= j < sort.len() ==> (#[trigger] sort[j]).column != column,
    ensures
        cycle_sort_spec(sort, column) == sort.push(SortKey { column, ascending: true }),
    decreases sort.len(),
{
    if sort.len() == 0 {
        assert(cycle_sort_spec(sort, column) =~= sort.push(SortKey { column, ascending: true }));
    } else {
        assert(sort[0] == sort.first());
        assert(forall|j: int|
            0 <= j < sort.drop_first().len() ==> #[trigger] sort.drop_first()[j] == sort[j + 1]);
        lemma_cycle_sort_absent(sort.drop_first(), column);
        assert(seq![sort.first()] + sort.drop_first().push(SortKey { column, ascending: true })
            =~= sort.push(SortKey { column, ascending: true }));
    }
}

/// Advance the sort specification by one header click on `column`: a column
/// that is not a key becomes an ascending key; an ascending key turns
/// descending; a descending key is removed. Other keys keep their place.
pub fn cycle_sort_key(sort: &Vec<SortKey>, column: usize) -> (r: Vec<SortKey>)
    ensures
        r@ == cycle_sort_spec(sort@, column),
{
    let n = sort.len();
    let mut i: usize = 0;
    while i < n
        invariant
            n == sort@.len(),
            i <= n,
            forall|j: int| 0 <= j < i ==> (#[trigger] sort@[j]).column != column,
        decreases n - i,
    {
        if sort[i].column == column {
            let mut out = sort.clone();
            proof {
                lemma_cycle_sort_at(sort@, column, i as int);
            }
            if sort[i].ascending {
                out[i] = SortKey { column, ascending: false };
            } else {
                let _removed = out.remove(i);
            }
            return out;
        }
        i = i + 1;
    }
    proof {
        lemma_cycle_sort_absent(sort@, column);
    }
    let mut out = sort.clone();
    out.push(SortKey { column, ascending: true });
    out
}

impl<R> DataTable<R> {
    /// Seed an empty table with one fresh row to interact with, when the
    /// viewer permits insertions (one undoable action); otherwise a no-op.
    pub fn ensure_seed_row<V: RowViewer<R>>(&mut self, viewer: &mut V) -> (r: Result<
        (),
        EngineError,
    >)
        requires
            old(self).wf(),
        ensures
            final(self).wf(),
            old(self).snap().ids.len() > 0 || !old(viewer).allow_insertions_spec() ==> r is Ok
                && *final(self) == *old(self),
            old(self).snap().ids.len() == 0 && old(viewer).allow_insertions_spec()
                ==> insert_rows_post(
                *old(viewer),
                *old(self),
                *final(self),
                0,
                seq![
                    old(viewer).new_empty_row_spec(
                        crate::viewer::EmptyRowCreateContext::InsertNewLine,
                    ),
                ],
                r,
            ),
    {
        if self.store.len() > 0 {
            return Ok(());
        }
        if !viewer.allow_row_insertions() {
            return Ok(());
        }
        let row = viewer.new_empty_row_for(crate::viewer::EmptyRowCreateContext::InsertNewLine);
        let mut rows: Vec<R> = Vec::new();
        rows.push(row);
        proof {
            assert(rows@ =~= seq![
                old(viewer).new_empty_row_spec(
                    crate::viewer::EmptyRowCreateContext::InsertNewLine,
                ),
            ]);
        }
        self.insert_rows(viewer, 0, rows)
    }

    /// Collect the viewer's custom context-menu items against a fresh
    /// selection snapshot. What comes back is the host's to define.
    pub fn context_menu_items<V: RowViewer<R>>(&self, viewer: &mut V) -> Vec<
        crate::viewer::CustomMenuItem,
    >
        requires
            self.wf(),
            !self.projection_dirty,
    {
        let snapshot = self.selection_snapshot(&*viewer);
        viewer.custom_context_menu_items(&snapshot)
    }
}

} // verus!
