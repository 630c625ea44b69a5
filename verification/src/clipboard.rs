//! Clipboard Codec Pipeline: serialize the selected rows through the
//! viewer's codec into tab/row-delimited text, and decode pasted text back
//! into batched cell writes.
//!
//! Decoding follows the per-cell error policy a codec signals: `SkipCell`
//! drops one write and goes on with the row, `SkipRow` abandons the whole
//! row, `Abort` stops the decode, discarding rows not yet committed. Paste
//! resolves to the same batched cell-write machinery as direct edits, so the
//! write-confirmation hook governs it identically.

use vstd::prelude::*;

use crate::engine::{DataTable, EngineError, seq_pos};
use crate::selection::{covers_cell, selection_covers};
use crate::tsv;
use crate::viewer::{CellWriteContext, DecodeErrorBehavior, RowCodec, RowViewer};

verus! {

/// Whether any cell of visible row `r` is covered by the selection.
pub open spec fn row_selected(
    ranges: Seq<crate::engine::VisSelection>,
    ncols: int,
    r: int,
) -> bool {
    exists|c: int| 0 <= c < ncols && selection_covers(ranges, ncols, r, c)
}

/// The stable ids of the selected visible rows among the first `upto`
/// visible positions, in visible order.
pub open spec fn selected_row_ids(
    vr: Seq<usize>,
    ranges: Seq<crate::engine::VisSelection>,
    ncols: int,
    upto: int,
) -> Seq<usize>
    decreases upto,
{
    if upto <= 0 {
        Seq::empty()
    } else {
        let rest = selected_row_ids(vr, ranges, ncols, upto - 1);
        if row_selected(ranges, ncols, upto - 1) {
            rest.push(vr[upto - 1])
        } else {
            rest
        }
    }
}

/// The text matrix that encoding `ids` over the visible columns produces.
pub open spec fn encode_matrix<R, C: RowCodec<R>>(
    codec: C,
    table: Seq<Option<R>>,
    cols: Seq<usize>,
    ids: Seq<usize>,
) -> Seq<Seq<Seq<char>>> {
    ids.map_values(
        |id: usize| cols.map_values(|col: usize| codec.encode_spec(table[id as int].unwrap(), col as int)),
    )
}

impl<R> DataTable<R> {
    /// Whether any cell of visible row `r` is selected.
    fn row_has_selection(&self, r: usize) -> (b: bool)
        requires
            self.snap().wf(),
        ensures
            b == row_selected(self.snap().ranges, self.snap().vis_cols.len() as int, r as int),
    {
        let ncols = self.vis_cols.len();
        let mut c: usize = 0;
        while c < ncols
            invariant
                ncols == self.snap().vis_cols.len(),
                ncols >= 1,
                c <= ncols,
                forall|j: int|
                    0 <= j < c ==> !selection_covers(
                        self.snap().ranges,
                        ncols as int,
                        r as int,
                        j,
                    ),
            decreases ncols - c,
        {
            if covers_cell(&self.selection.ranges, ncols, r, c) {
                proof {
                    assert(selection_covers(self.snap().ranges, ncols as int, r as int, c as int));
                }
                return true;
            }
            c = c + 1;
        }
        false
    }

    /// The stable ids of the selected rows, in visible order (computed on
    /// demand from the current projection).
    pub fn selected_rows(&self) -> (ids: Vec<usize>)
        requires
            self.wf(),
            !self.projection_dirty,
        ensures
            ids@ == selected_row_ids(
                self.visible_rows@,
                self.snap().ranges,
                self.snap().vis_cols.len() as int,
                self.visible_rows@.len() as int,
            ),
            forall|i: int| 0 <= i < ids@.len() ==> self.snap().live(#[trigger] ids@[i]),
    {
        let nvr = self.visible_rows.len();
        let ghost ncols = self.snap().vis_cols.len() as int;
        let mut ids: Vec<usize> = Vec::new();
        let mut r: usize = 0;
        while r < nvr
            invariant
                self.wf(),
                !self.projection_dirty,
                nvr == self.visible_rows@.len(),
                r <= nvr,
                ncols == self.snap().vis_cols.len() as int,
                ids@ == selected_row_ids(self.visible_rows@, self.snap().ranges, ncols, r as int),
                forall|i: int| 0 <= i < ids@.len() ==> self.snap().live(#[trigger] ids@[i]),
            decreases nvr - r,
        {
            if self.row_has_selection(r) {
                ids.push(self.visible_row_id(r));
            }
            r = r + 1;
        }
        ids
    }

    /// Serialize rows (given by stable id) through an encoding codec into
    /// clipboard text: one line per row, one tab-separated cell per visible
    /// column, delimiters escaped losslessly.
    pub fn encode_rows<C: RowCodec<R>>(&self, codec: &C, ids: &Vec<usize>) -> (out: String)
        requires
            self.wf(),
            forall|i: int| 0 <= i < ids@.len() ==> self.snap().live(#[trigger] ids@[i]),
        ensures
            out@ == tsv::compose_spec(
                encode_matrix(*codec, self.snap().table, self.snap().vis_cols, ids@),
            ),
    {
        let ghost goal = encode_matrix(*codec, self.snap().table, self.snap().vis_cols, ids@);
        let mut cells: Vec<Vec<String>> = Vec::new();
        let n = ids.len();
        let mut i: usize = 0;
        while i < n
            invariant
                self.wf(),
                n == ids@.len(),
                i <= n,
                forall|k: int| 0 <= k < n ==> self.snap().live(#[trigger] ids@[k]),
                goal == encode_matrix(*codec, self.snap().table, self.snap().vis_cols, ids@),
                tsv::rows_view(cells@) =~~= goal.take(i as int),
            decreases n - i,
        {
            let id = ids[i];
            let nc = self.vis_cols.len();
            let mut row_texts: Vec<String> = Vec::new();
            let mut c: usize = 0;
            while c < nc
                invariant
                    self.wf(),
                    n == ids@.len(),
                    i < n,
                    id == ids@[i as int],
                    self.snap().live(id),
                    nc == self.snap().vis_cols.len(),
                    c <= nc,
                    tsv::row_view(row_texts) =~= goal[i as int].take(c as int),
                    goal == encode_matrix(*codec, self.snap().table, self.snap().vis_cols, ids@),
                decreases nc - c,
            {
                let col = self.vis_cols[c];
                let mut buf = String::new();
                codec.encode_column(self.store.get(id), col, &mut buf);
                row_texts.push(buf);
                proof {
                    assert(goal[i as int].take(c + 1) =~= goal[i as int].take(c as int).push(
                        codec.encode_spec(self.snap().table[id as int].unwrap(), col as int),
                    ));
                    assert(tsv::row_view(row_texts) =~= goal[i as int].take(c + 1));
                }
                c = c + 1;
            }
            proof {
                assert(goal[i as int].take(nc as int) =~= goal[i as int]);
            }
            let ghost final_row = tsv::row_view(row_texts);
            let ghost cells_pre = cells@;
            cells.push(row_texts);
            proof {
                assert(final_row == goal[i as int]) by {
                    assert(final_row =~= goal[i as int]);
                }
                assert(tsv::rows_view(cells_pre) == goal.take(i as int));
                assert(tsv::rows_view(cells_pre).len() == cells_pre.len());
                assert(cells_pre.len() == i);
                assert(cells@.len() == i + 1);
                assert forall|q: int| 0 <= q < i + 1 implies #[trigger] tsv::rows_view(
                    cells@,
                )[q] == goal.take(i + 1)[q] by {
                    assert(tsv::rows_view(cells@)[q] == tsv::row_view(cells@[q]));
                    if q < i {
                        assert(cells@[q] == cells_pre[q]);
                        assert(tsv::rows_view(cells_pre)[q] == tsv::row_view(cells_pre[q]));
                        assert(tsv::rows_view(cells_pre)[q] == goal.take(i as int)[q]);
                    } else {
                        assert(tsv::row_view(cells@[q]) == final_row);
                    }
                }
                assert(tsv::rows_view(cells@) =~~= goal.take(i + 1));
            }
            i = i + 1;
        }
        proof {
            assert(goal.take(n as int) =~= goal);
            assert(tsv::rows_view(cells@) == goal) by {
                assert(tsv::rows_view(cells@) =~~= goal);
            }
        }
        tsv::compose(&cells)
    }

    /// Copy: serialize the currently selected rows into clipboard text.
    pub fn copy_selection<C: RowCodec<R>>(&self, codec: &C) -> (out: String)
        requires
            self.wf(),
            !self.projection_dirty,
        ensures
            out@ == tsv::compose_spec(
                encode_matrix(
                    *codec,
                    self.snap().table,
                    self.snap().vis_cols,
                    selected_row_ids(
                        self.visible_rows@,
                        self.snap().ranges,
                        self.snap().vis_cols.len() as int,
                        self.visible_rows@.len() as int,
                    ),
                ),
            ),
    {
        let ids = self.selected_rows();
        self.encode_rows(codec, &ids)
    }
}

/// The outcome of decoding one pasted row against a codec: the decoded row
/// plus which of the first `k` columns decoded, a skipped row, or a request
/// to abort the whole paste.
pub enum RowDecode<R> {
    Decoded { row: R, kept: Vec<usize> },
    Skipped,
    Aborted,
}

/// The decode of the first `upto` cells of one pasted row, as a spec-level
/// mirror: fold `decode_spec` over the cells, applying the error policy.
pub open spec fn decode_row_spec<R, C: RowCodec<R>>(
    codec: C,
    fields: Seq<Seq<char>>,
    cols: Seq<usize>,
    row0: R,
    upto: int,
) -> RowDecode<R>
    decreases upto,
{
    if upto <= 0 {
        RowDecode::Decoded { row: row0, kept: vstd::pervasive::arbitrary() }
    } else {
        match decode_row_spec(codec, fields, cols, row0, upto - 1) {
            RowDecode::Decoded { row, .. } => match codec.decode_spec(
                fields[upto - 1],
                cols[upto - 1] as int,
                row,
            ) {
                Ok(updated) => RowDecode::Decoded { row: updated, kept: vstd::pervasive::arbitrary() },
                Err(DecodeErrorBehavior::SkipCell) => RowDecode::Decoded {
                    row,
                    kept: vstd::pervasive::arbitrary(),
                },
                Err(DecodeErrorBehavior::SkipRow) => RowDecode::Skipped,
                Err(DecodeErrorBehavior::Abort) => RowDecode::Aborted,
            },
            RowDecode::Skipped => RowDecode::Skipped,
            RowDecode::Aborted => RowDecode::Aborted,
        }
    }
}

/// Which of the first `upto` columns of a row decode successfully (the kept
/// writes), meaningful only when the row decodes without skip or abort.
pub open spec fn decoded_cols<R, C: RowCodec<R>>(
    codec: C,
    fields: Seq<Seq<char>>,
    cols: Seq<usize>,
    row0: R,
    upto: int,
) -> Seq<usize>
    decreases upto,
{
    if upto <= 0 {
        Seq::empty()
    } else {
        let rest = decoded_cols(codec, fields, cols, row0, upto - 1);
        match decode_row_spec(codec, fields, cols, row0, upto - 1) {
            RowDecode::Decoded { row, .. } => match codec.decode_spec(
                fields[upto - 1],
                cols[upto - 1] as int,
                row,
            ) {
                Ok(_) => rest.push(cols[upto - 1]),
                _ => rest,
            },
            _ => rest,
        }
    }
}

impl<R> DataTable<R> {
    /// Decode one pasted row's cells into a fresh codec row, honoring the
    /// per-cell error policy. `cols` are the logical target columns, paired
    /// with the row's fields position by position (extra fields or extra
    /// columns are ignored). This is the verified half of the decode: it
    /// takes whatever the codec answered and applies the policy exactly.
    pub fn decode_row<C: RowCodec<R>>(codec: &C, fields: &Vec<String>, cols: &Vec<usize>) -> (r:
        RowDecode<R>)
        ensures
            ({
                let k = if fields@.len() <= cols@.len() {
                    fields@.len() as int
                } else {
                    cols@.len() as int
                };
                let fv = tsv::row_view(*fields);
                match decode_row_spec(*codec, fv, cols@, codec.empty_row_spec(), k) {
                    RowDecode::Decoded { row, .. } => r matches RowDecode::Decoded {
                        row: r2,
                        kept,
                    } && r2 == row && kept@ == decoded_cols(
                        *codec,
                        fv,
                        cols@,
                        codec.empty_row_spec(),
                        k,
                    ),
                    RowDecode::Skipped => r is Skipped,
                    RowDecode::Aborted => r is Aborted,
                }
            }),
    {
        let ghost fv = tsv::row_view(*fields);
        let k = if fields.len() <= cols.len() {
            fields.len()
        } else {
            cols.len()
        };
        let mut row = codec.create_empty_decoded_row();
        let mut kept: Vec<usize> = Vec::new();
        let mut j: usize = 0;
        while j < k
            invariant
                k as int == if fields@.len() <= cols@.len() {
                    fields@.len() as int
                } else {
                    cols@.len() as int
                },
                k <= fields@.len(),
                k <= cols@.len(),
                fv == tsv::row_view(*fields),
                j <= k,
                decode_row_spec(*codec, fv, cols@, codec.empty_row_spec(), j as int)
                    matches RowDecode::Decoded { row: rj, .. } && rj == row,
                kept@ == decoded_cols(*codec, fv, cols@, codec.empty_row_spec(), j as int),
            decreases k - j,
        {
            let col = cols[j];
            let ghost row_pre = row;
            proof {
                assert(fv[j as int] == fields@[j as int]@);
            }
            match codec.decode_column(fields[j].as_str(), col, &mut row) {
                Ok(()) => {
                    kept.push(col);
                    proof {
                        assert(decode_row_spec(*codec, fv, cols@, codec.empty_row_spec(), j + 1)
                            matches RowDecode::Decoded { row: rj, .. } && rj == row);
                        assert(kept@ == decoded_cols(
                            *codec,
                            fv,
                            cols@,
                            codec.empty_row_spec(),
                            j + 1,
                        ));
                    }
                },
                Err(DecodeErrorBehavior::SkipCell) => {
                    proof {
                        assert(decode_row_spec(*codec, fv, cols@, codec.empty_row_spec(), j + 1)
                            matches RowDecode::Decoded { row: rj, .. } && rj == row);
                    }
                },
                Err(DecodeErrorBehavior::SkipRow) => {
                    proof {
                        assert(decode_row_spec(
                            *codec,
                            fv,
                            cols@,
                            codec.empty_row_spec(),
                            j + 1,
                        ) is Skipped);
                        lemma_decode_row_stuck(*codec, fv, cols@, codec.empty_row_spec(), j as int + 1, k as int);
                    }
                    return RowDecode::Skipped;
                },
                Err(DecodeErrorBehavior::Abort) => {
                    proof {
                        assert(decode_row_spec(
                            *codec,
                            fv,
                            cols@,
                            codec.empty_row_spec(),
                            j + 1,
                        ) is Aborted);
                        lemma_decode_row_stuck(*codec, fv, cols@, codec.empty_row_spec(), j as int + 1, k as int);
                    }
                    return RowDecode::Aborted;
                },
            }
            j = j + 1;
        }
        RowDecode::Decoded { row, kept }
    }
}

/// The paste anchor as a (visible row, visible column) pair: the top-left
/// of the first committed rectangle, else the interactive cell, else the
/// grid origin.
pub open spec fn paste_anchor_spec<R>(s: crate::engine::TableSnap<R>) -> (int, int) {
    let ncols = s.vis_cols.len() as int;
    if s.ranges.len() > 0 {
        (
            crate::selection::row_of_linear(s.ranges[0].0 as int, ncols),
            crate::selection::col_of_linear(s.ranges[0].0 as int, ncols),
        )
    } else {
        match s.interactive {
            Some(l) => (
                crate::selection::row_of_linear(l as int, ncols),
                crate::selection::col_of_linear(l as int, ncols),
            ),
            None => (0, 0),
        }
    }
}

/// The stable ids a pasted block lands on: the visible rows from the anchor
/// row down (none when the anchor lies below the grid).
pub open spec fn paste_targets<R>(s: crate::engine::TableSnap<R>, visible: Seq<usize>) -> Seq<
    usize,
> {
    let ar = paste_anchor_spec(s).0;
    if 0 <= ar <= visible.len() {
        visible.skip(ar)
    } else {
        Seq::empty()
    }
}

/// The logical columns a pasted block lands on: the visible columns from the
/// anchor column right.
pub open spec fn paste_cols<R>(s: crate::engine::TableSnap<R>) -> Seq<usize> {
    s.vis_cols.skip(paste_anchor_spec(s).1)
}

/// The resolution of a whole pasted block: the decoded slab rows, the cell
/// writes they produce (each (target id, column, slab index)), whether the
/// decode stopped early (abort, or the grid ran out), and how many rows
/// decoded.
#[verifier::ext_equal]
pub ghost struct PastePlan<R> {
    pub slab: Seq<R>,
    pub values: Seq<(usize, usize, usize)>,
    pub stopped: bool,
    pub applied: int,
}

/// Fold the per-row decode over the first `upto` block rows.
pub open spec fn paste_plan<R, C: RowCodec<R>>(
    codec: C,
    block: Seq<Seq<Seq<char>>>,
    targets: Seq<usize>,
    cols: Seq<usize>,
    upto: int,
) -> PastePlan<R>
    decreases upto,
{
    if upto <= 0 {
        PastePlan { slab: Seq::empty(), values: Seq::empty(), stopped: false, applied: 0 }
    } else {
        let p = paste_plan(codec, block, targets, cols, upto - 1);
        if p.stopped {
            p
        } else if upto - 1 >= targets.len() {
            PastePlan { stopped: true, ..p }
        } else {
            let fields = block[upto - 1];
            let k = if fields.len() <= cols.len() {
                fields.len() as int
            } else {
                cols.len() as int
            };
            match decode_row_spec(codec, fields, cols, codec.empty_row_spec(), k) {
                RowDecode::Decoded { row, .. } => PastePlan {
                    slab: p.slab.push(row),
                    values: p.values + decoded_cols(
                        codec,
                        fields,
                        cols,
                        codec.empty_row_spec(),
                        k,
                    ).map_values(|c: usize| (targets[upto - 1], c, p.slab.len() as usize)),
                    stopped: false,
                    applied: p.applied + 1,
                },
                RowDecode::Skipped => p,
                RowDecode::Aborted => PastePlan { stopped: true, ..p },
            }
        }
    }
}

/// Once the block decode stops, later rows change nothing.
pub proof fn lemma_paste_plan_stuck<R, C: RowCodec<R>>(
    codec: C,
    block: Seq<Seq<Seq<char>>>,
    targets: Seq<usize>,
    cols: Seq<usize>,
    from: int,
    to: int,
)
    requires
        from <= to,
        paste_plan(codec, block, targets, cols, from).stopped,
    ensures
        paste_plan(codec, block, targets, cols, to) == paste_plan(
            codec,
            block,
            targets,
            cols,
            from,
        ),
    decreases to - from,
{
    if from < to {
        lemma_paste_plan_stuck(codec, block, targets, cols, from, to - 1);
    }
}

/// Every column a row decode keeps is one of the requested columns.
pub proof fn lemma_decoded_cols_membership<R, C: RowCodec<R>>(
    codec: C,
    fields: Seq<Seq<char>>,
    cols: Seq<usize>,
    row0: R,
    upto: int,
)
    requires
        upto <= cols.len(),
    ensures
        forall|i: int|
            0 <= i < decoded_cols(codec, fields, cols, row0, upto).len() ==> cols.contains(
                #[trigger] decoded_cols(codec, fields, cols, row0, upto)[i],
            ),
    decreases upto,
{
    if upto > 0 {
        lemma_decoded_cols_membership(codec, fields, cols, row0, upto - 1);
        let full = decoded_cols(codec, fields, cols, row0, upto);
        let rest = decoded_cols(codec, fields, cols, row0, upto - 1);
        assert forall|i: int| 0 <= i < full.len() implies cols.contains(#[trigger] full[i]) by {
            if i < rest.len() {
                assert(full[i] == rest[i]);
            } else {
                assert(full[i] == cols[upto - 1]);
            }
        }
    }
}

/// The rows a pasted block decodes into (for paste-as-insert): one fresh
/// row per block row that decodes, in pasted order; an abort stops the rest.
pub open spec fn insert_plan_rows<R, C: RowCodec<R>>(
    codec: C,
    block: Seq<Seq<Seq<char>>>,
    cols: Seq<usize>,
    upto: int,
) -> Seq<R>
    decreases upto,
{
    if upto <= 0 {
        Seq::empty()
    } else if insert_plan_stopped(codec, block, cols, upto - 1) {
        insert_plan_rows(codec, block, cols, upto - 1)
    } else {
        let rest = insert_plan_rows(codec, block, cols, upto - 1);
        let fields = block[upto - 1];
        let k = if fields.len() <= cols.len() {
            fields.len() as int
        } else {
            cols.len() as int
        };
        match decode_row_spec(codec, fields, cols, codec.empty_row_spec(), k) {
            RowDecode::Decoded { row, .. } => rest.push(row),
            _ => rest,
        }
    }
}

/// Whether the block decode for paste-as-insert has aborted within the
/// first `upto` rows.
pub open spec fn insert_plan_stopped<R, C: RowCodec<R>>(
    codec: C,
    block: Seq<Seq<Seq<char>>>,
    cols: Seq<usize>,
    upto: int,
) -> bool
    decreases upto,
{
    if upto <= 0 {
        false
    } else {
        insert_plan_stopped(codec, block, cols, upto - 1) || {
            let fields = block[upto - 1];
            let k = if fields.len() <= cols.len() {
                fields.len() as int
            } else {
                cols.len() as int
            };
            decode_row_spec::<R, C>(codec, fields, cols, codec.empty_row_spec(), k) is Aborted
        }
    }
}

/// Once the insert decode aborts, later rows contribute nothing.
pub proof fn lemma_insert_plan_stuck<R, C: RowCodec<R>>(
    codec: C,
    block: Seq<Seq<Seq<char>>>,
    cols: Seq<usize>,
    from: int,
    to: int,
)
    requires
        from <= to,
        insert_plan_stopped::<R, C>(codec, block, cols, from),
    ensures
        insert_plan_rows(codec, block, cols, to) == insert_plan_rows::<R, C>(
            codec,
            block,
            cols,
            from,
        ),
        insert_plan_stopped::<R, C>(codec, block, cols, to),
    decreases to - from,
{
    if from < to {
        lemma_insert_plan_stuck::<R, C>(codec, block, cols, from, to - 1);
    }
}

/// The arena position paste-as-insert targets: right after the anchor row
/// (clamped to the last visible row), or the end of an empty grid.
pub open spec fn paste_insert_pos<R>(s: crate::engine::TableSnap<R>, visible: Seq<usize>) -> int {
    if visible.len() == 0 {
        s.ids.len() as int
    } else {
        let ar = paste_anchor_spec(s).0;
        let fr = if ar < visible.len() {
            ar
        } else {
            visible.len() - 1
        };
        seq_pos(s.ids, visible[fr]) + 1
    }
}

/// Once a row decode skips or aborts, it stays skipped or aborted.
pub proof fn lemma_decode_row_stuck<R, C: RowCodec<R>>(
    codec: C,
    fields: Seq<Seq<char>>,
    cols: Seq<usize>,
    row0: R,
    from: int,
    to: int,
)
    requires
        from <= to,
        decode_row_spec(codec, fields, cols, row0, from) is Skipped || decode_row_spec(
            codec,
            fields,
            cols,
            row0,
            from,
        ) is Aborted,
    ensures
        decode_row_spec(codec, fields, cols, row0, to) == decode_row_spec(
            codec,
            fields,
            cols,
            row0,
            from,
        ),
    decreases to - from,
{
    if from < to {
        lemma_decode_row_stuck(codec, fields, cols, row0, from, to - 1);
    }
}

/// The covered cells of the visible grid, row-major, as (stable row id,
/// logical column) pairs: all rows before `r` completely, then row `r`'s
/// cells before column `c`.
pub open spec fn covered_cells_upto<R>(s: crate::engine::TableSnap<R>, vr: Seq<usize>, r: int, c: int) -> Seq<
    (usize, usize),
>
    decreases r, c,
{
    if r < 0 || c < 0 {
        Seq::empty()
    } else if c == 0 {
        if r == 0 {
            Seq::empty()
        } else {
            covered_cells_upto(s, vr, r - 1, s.vis_cols.len() as int)
        }
    } else {
        let rest = covered_cells_upto(s, vr, r, c - 1);
        if selection_covers(s.ranges, s.vis_cols.len() as int, r, c - 1) {
            rest.push((vr[r], s.vis_cols[c - 1]))
        } else {
            rest
        }
    }
}

/// All covered cells of the visible grid, row-major.
pub open spec fn covered_cells<R>(s: crate::engine::TableSnap<R>, vr: Seq<usize>) -> Seq<
    (usize, usize),
> {
    if vr.len() == 0 {
        Seq::empty()
    } else {
        covered_cells_upto(s, vr, vr.len() - 1, s.vis_cols.len() as int)
    }
}

/// The batched-write triples that clear every covered cell from one
/// template row (slab index 0).
pub open spec fn clear_triples<R>(s: crate::engine::TableSnap<R>, vr: Seq<usize>) -> Seq<
    (usize, usize, usize),
> {
    covered_cells(s, vr).map_values(|cell: (usize, usize)| (cell.0, cell.1, 0usize))
}

/// Every covered cell names a live row and a real column.
pub proof fn lemma_covered_cells_upto_valid<R>(
    s: crate::engine::TableSnap<R>,
    vr: Seq<usize>,
    r: int,
    c: int,
)
    requires
        s.wf(),
        forall|i: int| 0 <= i < vr.len() ==> s.live(#[trigger] vr[i]),
        r < vr.len(),
        c <= s.vis_cols.len(),
    ensures
        forall|k: int|
            0 <= k < covered_cells_upto(s, vr, r, c).len() ==> s.live(
                (#[trigger] covered_cells_upto(s, vr, r, c)[k]).0,
            ) && (covered_cells_upto(s, vr, r, c)[k]).1 < s.num_columns,
    decreases r, c,
{
    if r < 0 || c < 0 {
        assert(covered_cells_upto(s, vr, r, c) =~= Seq::<(usize, usize)>::empty());
    } else if c == 0 {
        if r == 0 {
            assert(covered_cells_upto(s, vr, r, c) =~= Seq::<(usize, usize)>::empty());
        } else {
            lemma_covered_cells_upto_valid(s, vr, r - 1, s.vis_cols.len() as int);
            assert(covered_cells_upto(s, vr, r, 0) == covered_cells_upto(
                s,
                vr,
                r - 1,
                s.vis_cols.len() as int,
            ));
        }
    } else {
        lemma_covered_cells_upto_valid(s, vr, r, c - 1);
        let rest = covered_cells_upto(s, vr, r, c - 1);
        let full = covered_cells_upto(s, vr, r, c);
        assert forall|k: int| 0 <= k < full.len() implies s.live((#[trigger] full[k]).0) && (
        full[k]).1 < s.num_columns by {
            if k < rest.len() {
                assert(full[k] == rest[k]);
            } else {
                assert(full[k] == (vr[r], s.vis_cols[c - 1]));
            }
        }
    }
}

/// A batch whose every entry names a live row, a real column and a slab
/// entry has no integration error.
pub proof fn lemma_no_write_error<R>(
    s: crate::engine::TableSnap<R>,
    slab: Seq<R>,
    values: Seq<(usize, usize, usize)>,
)
    requires
        forall|k: int|
            0 <= k < values.len() ==> {
                &&& s.live((#[trigger] values[k]).0)
                &&& (values[k]).1 < s.num_columns
                &&& (values[k]).2 < slab.len()
            },
    ensures
        crate::engine::first_write_error(s, slab, values) is None,
    decreases values.len(),
{
    if values.len() > 0 {
        assert(values[0] == values.first());
        assert(forall|k: int|
            0 <= k < values.drop_first().len() ==> #[trigger] values.drop_first()[k] == values[k
                + 1]);
        lemma_no_write_error(s, slab, values.drop_first());
    }
}

impl<R> DataTable<R> {
    /// Expand the committed selection into concrete (stable row id, logical
    /// column) pairs against the current projection, row-major.
    pub fn covered_cells_list(&self) -> (cells: Vec<(usize, usize)>)
        requires
            self.wf(),
            !self.projection_dirty,
        ensures
            cells@ == covered_cells(self.snap(), self.visible_rows@),
            forall|k: int|
                0 <= k < cells@.len() ==> self.snap().live((#[trigger] cells@[k]).0)
                    && (cells@[k]).1 < self.num_columns,
    {
        let nvr = self.visible_rows.len();
        let nvc = self.vis_cols.len();
        let mut cells: Vec<(usize, usize)> = Vec::new();
        if nvr == 0 {
            return cells;
        }
        let mut r: usize = 0;
        while r < nvr
            invariant
                self.wf(),
                !self.projection_dirty,
                nvr == self.visible_rows@.len(),
                nvc == self.snap().vis_cols.len(),
                r <= nvr,
                nvr > 0,
                r > 0 ==> cells@ == covered_cells_upto(
                    self.snap(),
                    self.visible_rows@,
                    r - 1,
                    nvc as int,
                ),
                r == 0 ==> cells@ == Seq::<(usize, usize)>::empty(),
                forall|k: int|
                    0 <= k < cells@.len() ==> self.snap().live((#[trigger] cells@[k]).0)
                        && (cells@[k]).1 < self.num_columns,
            decreases nvr - r,
        {
            let mut c: usize = 0;
            proof {
                if r > 0 {
                    assert(covered_cells_upto(self.snap(), self.visible_rows@, r as int, 0)
                        == covered_cells_upto(self.snap(), self.visible_rows@, r - 1, nvc as int));
                } else {
                    assert(covered_cells_upto(self.snap(), self.visible_rows@, 0, 0)
                        == Seq::<(usize, usize)>::empty());
                }
            }
            while c < nvc
                invariant
                    self.wf(),
                    !self.projection_dirty,
                    nvr == self.visible_rows@.len(),
                    nvc == self.snap().vis_cols.len(),
                    r < nvr,
                    c <= nvc,
                    cells@ == covered_cells_upto(self.snap(), self.visible_rows@, r as int, c as int),
                    forall|k: int|
                        0 <= k < cells@.len() ==> self.snap().live((#[trigger] cells@[k]).0)
                            && cells@[k].1 < self.num_columns,
                decreases nvc - c,
            {
                if covers_cell(&self.selection.ranges, nvc, r, c) {
                    cells.push((self.visible_rows[r], self.vis_cols[c]));
                }
                c = c + 1;
            }
            r = r + 1;
        }
        cells
    }

    /// Clear the selected cells: each covered cell receives the column value
    /// of a deletion-placeholder row, through the ordinary batched cell
    /// write (so the write-confirmation hook governs each cell, with the
    /// `Clear` context). One undoable action.
    pub fn clear_selected_cells<V: RowViewer<R>>(&mut self, viewer: &mut V) -> (r: Result<
        (),
        EngineError,
    >)
        requires
            old(self).wf(),
            !old(self).projection_dirty,
        ensures
            final(self).wf(),
            r is Ok,
            crate::engine::set_cells_post(
                *old(viewer),
                *old(self),
                *final(self),
                seq![
                    old(viewer).new_empty_row_spec(
                        crate::viewer::EmptyRowCreateContext::DeletionDefault,
                    ),
                ],
                clear_triples(old(self).snap(), old(self).visible_rows@),
                CellWriteContext::Clear,
                r,
            ),
    {
        let ghost s0 = self.snap();
        let cells = self.covered_cells_list();
        let template = viewer.new_empty_row_for(
            crate::viewer::EmptyRowCreateContext::DeletionDefault,
        );
        let mut slab: Vec<R> = Vec::new();
        slab.push(template);
        let mut values: Vec<(usize, usize, usize)> = Vec::new();
        let n = cells.len();
        let mut i: usize = 0;
        while i < n
            invariant
                n == cells@.len(),
                i <= n,
                values@.len() == i,
                *self == *old(self),
                old(self).wf(),
                slab@.len() == 1,
                forall|k: int| 0 <= k < n ==> self.snap().live((#[trigger] cells@[k]).0)
                    && cells@[k].1 < self.num_columns,
                forall|k: int|
                    0 <= k < i ==> #[trigger] values@[k] == (cells@[k].0, cells@[k].1, 0usize),
            decreases n - i,
        {
            let (id, col) = cells[i];
            values.push((id, col, 0));
            i = i + 1;
        }
        proof {
            assert(slab@ =~= seq![
                old(viewer).new_empty_row_spec(
                    crate::viewer::EmptyRowCreateContext::DeletionDefault,
                ),
            ]);
            assert(values@ =~= clear_triples(s0, self.visible_rows@));
            lemma_no_write_error(s0, slab@, values@);
        }
        self.set_cells(viewer, &slab, &values, CellWriteContext::Clear)
    }

    /// Cut: serialize the selected rows, then clear the selected cells.
    /// Returns the clipboard text.
    pub fn cut_selection<V: RowViewer<R>, C: RowCodec<R>>(
        &mut self,
        viewer: &mut V,
        codec: &C,
    ) -> (out: String)
        requires
            old(self).wf(),
            !old(self).projection_dirty,
        ensures
            final(self).wf(),
            out@ == tsv::compose_spec(
                encode_matrix(
                    *codec,
                    old(self).snap().table,
                    old(self).snap().vis_cols,
                    selected_row_ids(
                        old(self).visible_rows@,
                        old(self).snap().ranges,
                        old(self).snap().vis_cols.len() as int,
                        old(self).visible_rows@.len() as int,
                    ),
                ),
            ),
            crate::engine::set_cells_post(
                *old(viewer),
                *old(self),
                *final(self),
                seq![
                    old(viewer).new_empty_row_spec(
                        crate::viewer::EmptyRowCreateContext::DeletionDefault,
                    ),
                ],
                clear_triples(old(self).snap(), old(self).visible_rows@),
                CellWriteContext::Clear,
                Ok(()),
            ),
    {
        let out = self.copy_selection(codec);
        let cleared = self.clear_selected_cells(viewer);
        proof {
            match cleared {
                Ok(u) => {
                    assert(u == ());
                    assert(cleared == Ok::<(), EngineError>(()));
                },
                Err(_) => {
                    assert(false);
                },
            }
        }
        out
    }

    /// The anchor cell for paste: the top-left of the first committed
    /// rectangle, else the interactive cell, else the grid origin. As a
    /// (visible row, visible column) pair.
    pub fn paste_anchor(&self) -> (rc: (usize, usize))
        requires
            self.wf(),
        ensures
            rc.0 as int == paste_anchor_spec(self.snap()).0,
            rc.1 as int == paste_anchor_spec(self.snap()).1,
            rc.1 < self.snap().vis_cols.len(),
    {
        let ncols = self.vis_cols.len();
        if self.selection.ranges.len() > 0 {
            let r = self.selection.ranges[0];
            crate::selection::row_col_of(r.0, ncols)
        } else {
            match &self.selection.interactive {
                Some(l) => crate::selection::row_col_of(*l, ncols),
                None => (0, 0),
            }
        }
    }

    /// Paste in place: decode the clipboard block row by row (honoring each
    /// cell's error policy) and overwrite the grid starting at the paste
    /// anchor, clipped to the visible grid; the block is never resized. The
    /// writes go through the ordinary batched cell write with the `Paste`
    /// context. Returns how many pasted rows were actually applied (rows
    /// skipped by policy, aborted, or falling outside the grid do not
    /// count).
    pub fn paste_in_place<V: RowViewer<R>, C: RowCodec<R>>(
        &mut self,
        viewer: &mut V,
        codec: &C,
        text: &str,
    ) -> (applied: Result<usize, EngineError>)
        requires
            old(self).wf(),
            !old(self).projection_dirty,
        ensures
            final(self).wf(),
            ({
                let plan = paste_plan(
                    *codec,
                    tsv::parse_spec(text@),
                    paste_targets(old(self).snap(), old(self).visible_rows@),
                    paste_cols(old(self).snap()),
                    tsv::parse_spec(text@).len() as int,
                );
                match applied {
                    Ok(n) => crate::engine::set_cells_post(
                        *old(viewer),
                        *old(self),
                        *final(self),
                        plan.slab,
                        plan.values,
                        CellWriteContext::Paste,
                        Ok(()),
                    ) && n as int == plan.applied,
                    Err(e) => crate::engine::set_cells_post(
                        *old(viewer),
                        *old(self),
                        *final(self),
                        plan.slab,
                        plan.values,
                        CellWriteContext::Paste,
                        Err(e),
                    ),
                }
            }),
    {
        let ghost s0 = self.snap();
        let ghost blockv = tsv::parse_spec(text@);
        let ghost targets = paste_targets(s0, self.visible_rows@);
        let ghost colsv = paste_cols(s0);
        let block = tsv::parse(text);
        proof {
            assert(tsv::rows_view(block@) == blockv);
            assert(blockv.len() == block@.len());
        }
        let (ar, ac) = self.paste_anchor();
        // The target columns: the visible columns from the anchor on.
        let nvc = self.vis_cols.len();
        let mut cols: Vec<usize> = Vec::new();
        let mut c: usize = ac;
        while c < nvc
            invariant
                nvc == self.snap().vis_cols.len(),
                ac <= c <= nvc,
                *self == *old(self),
                old(self).wf(),
                cols@ == self.snap().vis_cols.subrange(ac as int, c as int),
            decreases nvc - c,
        {
            let col = self.vis_cols[c];
            cols.push(col);
            proof {
                assert(cols@ =~= self.snap().vis_cols.subrange(ac as int, c + 1));
            }
            c = c + 1;
        }
        proof {
            assert(cols@ =~= colsv);
            assert forall|k: int| 0 <= k < cols@.len() implies (#[trigger] cols@[k])
                < self.num_columns by {
                assert(cols@[k] == self.snap().vis_cols[ac + k]);
            }
        }
        // Decode each block row against a target visible row; collect the
        // surviving writes.
        let mut slab: Vec<R> = Vec::new();
        let mut values: Vec<(usize, usize, usize)> = Vec::new();
        let mut applied_rows: usize = 0;
        let nvr = self.visible_rows.len();
        let nb = block.len();
        let mut i: usize = 0;
        let mut halted = false;
        proof {
            if ar <= nvr {
                assert(targets =~= self.visible_rows@.skip(ar as int));
            }
        }
        while i < nb && !halted
            invariant
                nb == block@.len(),
                i <= nb,
                nvr == self.visible_rows@.len(),
                *self == *old(self),
                old(self).wf(),
                !self.projection_dirty,
                s0 == self.snap(),
                blockv == tsv::rows_view(block@),
                targets == paste_targets(s0, self.visible_rows@),
                colsv == cols@,
                forall|k: int| 0 <= k < colsv.len() ==> (#[trigger] colsv[k]) < self.num_columns,
                ar as int == paste_anchor_spec(s0).0,
                applied_rows <= i,
                ({
                    let p = paste_plan(*codec, blockv, targets, colsv, i as int);
                    &&& slab@ == p.slab
                    &&& values@ == p.values
                    &&& applied_rows as int == p.applied
                    &&& (halted ==> p.stopped)
                    &&& (!halted ==> !p.stopped)
                }),
                forall|k: int|
                    0 <= k < values@.len() ==> {
                        &&& self.snap().live((#[trigger] values@[k]).0)
                        &&& (values@[k]).1 < self.num_columns
                        &&& (values@[k]).2 < slab@.len()
                    },
            decreases nb - i,
        {
            let ghost p_pre = paste_plan(*codec, blockv, targets, colsv, i as int);
            if ar > usize::MAX - i || ar + i >= nvr {
                // The grid ran out below the anchor: the rest of the block
                // has nowhere to land.
                halted = true;
                proof {
                    assert((i as int) >= targets.len()) by {
                        if ar <= nvr {
                            assert(targets.len() == nvr - ar);
                        } else {
                            assert(targets.len() == 0);
                        }
                    }
                    assert(paste_plan(*codec, blockv, targets, colsv, i + 1).stopped);
                    assert(paste_plan(*codec, blockv, targets, colsv, i + 1).slab == p_pre.slab);
                    assert(paste_plan(*codec, blockv, targets, colsv, i + 1).values
                        == p_pre.values);
                    assert(paste_plan(*codec, blockv, targets, colsv, i + 1).applied
                        == p_pre.applied);
                }
                i = i + 1;
            } else {
            let tr = ar + i;
            let target_id = self.visible_rows[tr];
            proof {
                assert(targets[i as int] == self.visible_rows@[ar + i]);
                assert((i as int) < targets.len());
                assert(!p_pre.stopped);
                assert(blockv[i as int] == tsv::row_view(block@[i as int]));
            }
            match Self::decode_row(codec, &block[i], &cols) {
                RowDecode::Decoded { row, kept } => {
                    let ghost krows = decoded_cols(
                        *codec,
                        blockv[i as int],
                        colsv,
                        codec.empty_row_spec(),
                        if blockv[i as int].len() <= colsv.len() {
                            blockv[i as int].len() as int
                        } else {
                            colsv.len() as int
                        },
                    );
                    slab.push(row);
                    let si = slab.len() - 1;
                    proof {
                        assert(kept@ == krows);
                        lemma_decoded_cols_membership(
                            *codec,
                            blockv[i as int],
                            colsv,
                            codec.empty_row_spec(),
                            if blockv[i as int].len() <= colsv.len() {
                                blockv[i as int].len() as int
                            } else {
                                colsv.len() as int
                            },
                        );
                    }
                    let nk = kept.len();
                    let ghost vpre = values@;
                    let mut k: usize = 0;
                    while k < nk
                        invariant
                            nk == kept@.len(),
                            k <= nk,
                            si < slab@.len(),
                            si as int == slab@.len() - 1,
                            *self == *old(self),
                            old(self).wf(),
                            s0 == self.snap(),
                            self.snap().live(target_id),
                            kept@ == krows,
                            colsv == cols@,
                            forall|q: int|
                                0 <= q < krows.len() ==> colsv.contains(#[trigger] krows[q]),
                            forall|q: int|
                                0 <= q < colsv.len() ==> (#[trigger] colsv[q]) < self.num_columns,
                            values@ == vpre + krows.take(k as int).map_values(
                                |cq: usize| (target_id, cq, si),
                            ),
                            forall|q: int|
                                0 <= q < values@.len() ==> {
                                    &&& self.snap().live((#[trigger] values@[q]).0)
                                    &&& (values@[q]).1 < self.num_columns
                                    &&& (values@[q]).2 < slab@.len()
                                },
                        decreases nk - k,
                    {
                        let col = kept[k];
                        values.push((target_id, col, si));
                        proof {
                            assert(krows.take(k + 1) =~= krows.take(k as int).push(krows[k as int]));
                            assert(values@ =~= vpre + krows.take(k + 1).map_values(
                                |cq: usize| (target_id, cq, si),
                            ));
                            assert(colsv.contains(col));
                            let w = choose|w: int| 0 <= w < colsv.len() && colsv[w] == col;
                        }
                        k = k + 1;
                    }
                    applied_rows = applied_rows + 1;
                    proof {
                        assert(krows.take(nk as int) =~= krows);
                        assert(paste_plan(*codec, blockv, targets, colsv, i + 1) == (PastePlan {
                            slab: p_pre.slab.push(row),
                            values: p_pre.values + krows.map_values(
                                |cq: usize| (targets[i as int], cq, p_pre.slab.len() as usize),
                            ),
                            stopped: false,
                            applied: p_pre.applied + 1,
                        }));
                        assert(values@ =~= p_pre.values + krows.map_values(
                            |cq: usize| (target_id, cq, si),
                        ));
                        assert(si as int == p_pre.slab.len());
                        assert(krows.map_values(|cq: usize| (target_id, cq, si)) =~= krows.map_values(
                            |cq: usize| (targets[i as int], cq, p_pre.slab.len() as usize),
                        ));
                    }
                },
                RowDecode::Skipped => {
                    proof {
                        assert(paste_plan(*codec, blockv, targets, colsv, i + 1) == p_pre);
                    }
                },
                RowDecode::Aborted => {
                    halted = true;
                    proof {
                        assert(paste_plan(*codec, blockv, targets, colsv, i + 1).stopped);
                    }
                },
            }
            i = i + 1;
            }
        }
        proof {
            let p_end = paste_plan(*codec, blockv, targets, colsv, i as int);
            if halted {
                lemma_paste_plan_stuck(*codec, blockv, targets, colsv, i as int, nb as int);
            }
            let p_final = paste_plan(*codec, blockv, targets, colsv, nb as int);
            assert(slab@ == p_final.slab && values@ == p_final.values && applied_rows as int
                == p_final.applied);
        }
        match self.set_cells(viewer, &slab, &values, CellWriteContext::Paste) {
            Ok(()) => Ok(applied_rows),
            Err(e) => Err(e),
        }
    }

    /// Paste as new rows: decode each clipboard row into a fresh row and
    /// insert the surviving rows immediately after the anchor row,
    /// preserving pasted order. Requires the viewer to allow insertions.
    /// Returns how many rows were inserted.
    pub fn paste_insert<V: RowViewer<R>, C: RowCodec<R>>(
        &mut self,
        viewer: &mut V,
        codec: &C,
        text: &str,
    ) -> (applied: Result<usize, EngineError>)
        requires
            old(self).wf(),
            !old(self).projection_dirty,
        ensures
            final(self).wf(),
            ({
                let rows = insert_plan_rows(
                    *codec,
                    tsv::parse_spec(text@),
                    old(self).snap().vis_cols,
                    tsv::parse_spec(text@).len() as int,
                );
                let pos = paste_insert_pos(old(self).snap(), old(self).visible_rows@);
                match applied {
                    Ok(n) => crate::engine::insert_rows_post(
                        *old(viewer),
                        *old(self),
                        *final(self),
                        pos as usize,
                        rows,
                        Ok(()),
                    ) && n as int == rows.len(),
                    Err(e) => crate::engine::insert_rows_post(
                        *old(viewer),
                        *old(self),
                        *final(self),
                        pos as usize,
                        rows,
                        Err(e),
                    ),
                }
            }),
    {
        let ghost s0 = self.snap();
        let ghost blockv = tsv::parse_spec(text@);
        let ghost colsv = s0.vis_cols;
        let block = tsv::parse(text);
        proof {
            assert(tsv::rows_view(block@) == blockv);
        }
        // The target columns, from the first visible column.
        let nvc = self.vis_cols.len();
        let mut cols: Vec<usize> = Vec::new();
        let mut c: usize = 0;
        while c < nvc
            invariant
                nvc == self.snap().vis_cols.len(),
                c <= nvc,
                *self == *old(self),
                old(self).wf(),
                cols@ == self.snap().vis_cols.take(c as int),
            decreases nvc - c,
        {
            cols.push(self.vis_cols[c]);
            proof {
                assert(cols@ =~= self.snap().vis_cols.take(c + 1));
            }
            c = c + 1;
        }
        proof {
            assert(cols@ =~= colsv);
        }
        let mut rows: Vec<R> = Vec::new();
        let nb = block.len();
        let mut i: usize = 0;
        let mut halted = false;
        while i < nb && !halted
            invariant
                nb == block@.len(),
                i <= nb,
                *self == *old(self),
                old(self).wf(),
                s0 == self.snap(),
                blockv == tsv::rows_view(block@),
                colsv == cols@,
                rows@ == insert_plan_rows(*codec, blockv, colsv, i as int),
                halted == insert_plan_stopped::<R, C>(*codec, blockv, colsv, i as int),
            decreases nb - i,
        {
            proof {
                assert(blockv[i as int] == tsv::row_view(block@[i as int]));
            }
            match Self::decode_row(codec, &block[i], &cols) {
                RowDecode::Decoded { row, .. } => {
                    rows.push(row);
                },
                RowDecode::Skipped => {},
                RowDecode::Aborted => {
                    halted = true;
                },
            }
            i = i + 1;
        }
        proof {
            if halted {
                lemma_insert_plan_stuck::<R, C>(*codec, blockv, colsv, i as int, nb as int);
            }
            assert(rows@ == insert_plan_rows(*codec, blockv, colsv, nb as int));
        }
        let count = rows.len();
        // Insert immediately after the anchor row's arena position.
        let (ar, _) = self.paste_anchor();
        let nvr = self.visible_rows.len();
        let pos = if nvr == 0 {
            self.store.len()
        } else {
            let anchor_row = if ar < nvr {
                self.visible_rows[ar]
            } else {
                self.visible_rows[nvr - 1]
            };
            if self.store.contains(anchor_row) {
                let p = self.store.position_of(anchor_row);
                proof {
                    crate::engine::lemma_ids_bounded(self.snap());
                    crate::engine::lemma_seq_pos(s0.ids, anchor_row, p as int);
                }
                p + 1
            } else {
                self.store.len()
            }
        };
        proof {
            assert(pos as int == paste_insert_pos(s0, self.visible_rows@));
        }
        match self.insert_rows(viewer, pos, rows) {
            Ok(()) => Ok(count),
            Err(e) => Err(e),
        }
    }
}

} // verus!
