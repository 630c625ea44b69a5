//! Selection Algebra: rectangular ranges over the visible grid, addressed
//! by linear indices (`linear = visible_row * visible_column_count +
//! visible_column`). Ranges are resolved to concrete rows and cells on
//! demand, against the current projection, because the projection can
//! change between selection creation and consumption.

use vstd::prelude::*;

use crate::engine::{DataTable, EngineError, VisSelection};
use crate::viewer::RowViewer;

verus! {

/// The visible row of a linear index.
pub open spec fn row_of_linear(l: int, ncols: int) -> int
    recommends
        ncols > 0,
{
    l / ncols
}

/// The visible column of a linear index.
pub open spec fn col_of_linear(l: int, ncols: int) -> int
    recommends
        ncols > 0,
{
    l % ncols
}

/// Whether one rectangle covers the visible cell (row, col): the cell lies
/// within the row span and the column span of the rectangle's corners.
pub open spec fn range_covers(r: VisSelection, ncols: int, row: int, col: int) -> bool
    recommends
        ncols > 0,
{
    &&& row_of_linear(r.0 as int, ncols) <= row <= row_of_linear(r.1 as int, ncols)
    &&& col_of_linear(r.0 as int, ncols) <= col <= col_of_linear(r.1 as int, ncols)
}

/// Whether any committed rectangle covers the visible cell (row, col).
pub open spec fn selection_covers(
    ranges: Seq<VisSelection>,
    ncols: int,
    row: int,
    col: int,
) -> bool {
    exists|i: int| 0 <= i < ranges.len() && range_covers(#[trigger] ranges[i], ncols, row, col)
}

/// Decompose a linear index into (visible row, visible column).
pub fn row_col_of(l: usize, ncols: usize) -> (rc: (usize, usize))
    requires
        ncols > 0,
    ensures
        rc.0 == row_of_linear(l as int, ncols as int),
        rc.1 == col_of_linear(l as int, ncols as int),
        rc.1 < ncols,
{
    (l / ncols, l % ncols)
}

/// Whether the committed selection covers the visible cell (row, col).
pub fn covers_cell(ranges: &Vec<VisSelection>, ncols: usize, row: usize, col: usize) -> (b: bool)
    requires
        ncols > 0,
    ensures
        b == selection_covers(ranges@, ncols as int, row as int, col as int),
{
    let n = ranges.len();
    let mut i: usize = 0;
    while i < n
        invariant
            n == ranges@.len(),
            ncols > 0,
            i <= n,
            forall|j: int|
                0 <= j < i ==> !range_covers(
                    #[trigger] ranges@[j],
                    ncols as int,
                    row as int,
                    col as int,
                ),
        decreases n - i,
    {
        let r = ranges[i];
        let (r0, c0) = row_col_of(r.0, ncols);
        let (r1, c1) = row_col_of(r.1, ncols);
        if r0 <= row && row <= r1 && c0 <= col && col <= c1 {
            proof {
                assert(range_covers(ranges@[i as int], ncols as int, row as int, col as int));
            }
            return true;
        }
        i = i + 1;
    }
    false
}

/// What select-all does, exactly: the committed selection becomes the one
/// full-grid rectangle (empty on an empty grid), replacing whatever was
/// selected before, as one undoable action; a grid too large for a linear
/// index is refused.
pub open spec fn select_all_post<R>(
    pre: DataTable<R>,
    post: DataTable<R>,
    r: Result<(), EngineError>,
) -> bool {
    let total = pre.visible_rows@.len() * pre.snap().vis_cols.len();
    if total > usize::MAX {
        r == Err::<(), EngineError>(EngineError::CapacityExceeded) && post == pre
    } else {
        &&& r is Ok
        &&& post.snap().table == pre.snap().table
        &&& post.snap().ids == pre.snap().ids
        &&& post.snap().sort == pre.snap().sort
        &&& post.snap().vis_cols == pre.snap().vis_cols
        &&& post.visible_rows == pre.visible_rows
        &&& post.snap().interactive == pre.snap().interactive
        &&& (pre.visible_rows@.len() == 0 ==> post.snap().ranges
            == Seq::<VisSelection>::empty())
        &&& (pre.visible_rows@.len() > 0 ==> post.snap().ranges == seq![
            VisSelection(0, (total - 1) as usize),
        ])
        &&& crate::engine::history_extended(pre, post)
    }
}

impl<R> DataTable<R> {
    /// Select the full visible grid: one rectangle from linear index 0 to
    /// the last visible cell, independent of the previous selection. On an
    /// empty grid the selection becomes empty. The projection must be fresh.
    pub fn select_all<V: RowViewer<R>>(&mut self, viewer: &mut V) -> (r: Result<(), EngineError>)
        requires
            old(self).wf(),
            !old(self).projection_dirty,
        ensures
            final(self).wf(),
            select_all_post(*old(self), *final(self), r),
    {
        let nvr = self.visible_rows.len();
        let nvc = self.vis_cols.len();
        let total = match nvr.checked_mul(nvc) {
            Some(t) => t,
            None => {
                proof {
                    vstd::arithmetic::mul::lemma_mul_strictly_positive(nvr as int, nvc as int);
                }
                return Err(EngineError::CapacityExceeded);
            },
        };
        let interactive = match &self.selection.interactive {
            Some(i) => Some(*i),
            None => None,
        };
        let mut ranges: Vec<VisSelection> = Vec::new();
        if nvr > 0 {
            proof {
                vstd::arithmetic::mul::lemma_mul_strictly_positive(nvr as int, nvc as int);
            }
            ranges.push(VisSelection(0, total - 1));
        }
        let ghost expect = ranges@;
        self.set_selection(viewer, ranges, interactive);
        proof {
            assert(final(self).snap().ranges =~= expect);
        }
        Ok(())
    }
}

/// Select-all covers exactly the visible grid: with `nvr` visible rows and
/// `nvc` visible columns (both positive), the single full-grid rectangle
/// covers a visible cell if and only if the cell is inside the grid; the
/// covered linear indices are exactly 0 .. nvr * nvc, so the selection
/// covers exactly `nvr * nvc` cells.
pub proof fn lemma_select_all_covers(nvr: int, nvc: int, row: int, col: int)
    requires
        nvr > 0,
        nvc > 0,
        nvr * nvc <= usize::MAX,
        0 <= col < nvc,
        0 <= row,
    ensures
        selection_covers(
            seq![VisSelection(0, (nvr * nvc - 1) as usize)],
            nvc,
            row,
            col,
        ) <==> row < nvr,
{
    let full = VisSelection(0, (nvr * nvc - 1) as usize);
    let ranges = seq![full];
    assert(ranges[0] == full);
    vstd::arithmetic::mul::lemma_mul_strictly_positive(nvr, nvc);
    assert(full.0 as int == 0);
    assert(full.1 as int == nvr * nvc - 1);
    assert(row_of_linear(0, nvc) == 0 && col_of_linear(0, nvc) == 0) by {
        vstd::arithmetic::div_mod::lemma_div_of0(nvc);
        vstd::arithmetic::div_mod::lemma_small_mod(0, nvc as nat);
    }
    assert(nvr * nvc - 1 == (nvr - 1) * nvc + (nvc - 1)) by (nonlinear_arith)
        requires
            nvr > 0,
            nvc > 0,
    ;
    assert(row_of_linear(nvr * nvc - 1, nvc) == nvr - 1 && col_of_linear(nvr * nvc - 1, nvc)
        == nvc - 1) by {
        vstd::arithmetic::div_mod::lemma_fundamental_div_mod_converse(
            nvr * nvc - 1,
            nvc,
            nvr - 1,
            nvc - 1,
        );
    }
    if row < nvr {
        assert(range_covers(full, nvc, row, col));
        assert(selection_covers(ranges, nvc, row, col)) by {
            assert(range_covers(ranges[0], nvc, row, col));
        }
    } else {
        assert(!range_covers(full, nvc, row, col));
        assert(!selection_covers(ranges, nvc, row, col)) by {
            assert(forall|i: int|
                0 <= i < ranges.len() ==> ranges[i] == full);
        }
    }
}

/// The linear indices of the cells covered by the full-grid rectangle are
/// exactly the interval 0 .. nvr * nvc: the selection covers exactly
/// `nvr * nvc` cells.
pub proof fn lemma_select_all_count(nvr: int, nvc: int)
    requires
        nvr > 0,
        nvc > 0,
        nvr * nvc <= usize::MAX,
    ensures
        Set::new(
            |l: int|
                0 <= l < nvr * nvc && selection_covers(
                    seq![VisSelection(0, (nvr * nvc - 1) as usize)],
                    nvc,
                    row_of_linear(l, nvc),
                    col_of_linear(l, nvc),
                ),
        ) =~= vstd::set_lib::set_int_range(0, nvr * nvc),
        Set::new(
            |l: int|
                0 <= l < nvr * nvc && selection_covers(
                    seq![VisSelection(0, (nvr * nvc - 1) as usize)],
                    nvc,
                    row_of_linear(l, nvc),
                    col_of_linear(l, nvc),
                ),
        ).len() == nvr * nvc,
{
    let covered = Set::new(
        |l: int|
            0 <= l < nvr * nvc && selection_covers(
                seq![VisSelection(0, (nvr * nvc - 1) as usize)],
                nvc,
                row_of_linear(l, nvc),
                col_of_linear(l, nvc),
            ),
    );
    assert forall|l: int| 0 <= l < nvr * nvc implies covered.contains(l) by {
        vstd::arithmetic::div_mod::lemma_fundamental_div_mod(l, nvc);
        vstd::arithmetic::div_mod::lemma_mod_bound(l, nvc);
        assert(0 <= col_of_linear(l, nvc) < nvc);
        assert(0 <= row_of_linear(l, nvc)) by {
            vstd::arithmetic::div_mod::lemma_div_pos_is_pos(l, nvc);
        }
        assert(row_of_linear(l, nvc) < nvr) by {
            if row_of_linear(l, nvc) >= nvr {
                vstd::arithmetic::mul::lemma_mul_inequality(nvr, l / nvc, nvc);
                assert(nvr * nvc <= (l / nvc) * nvc) by {
                    vstd::arithmetic::mul::lemma_mul_is_commutative(nvr, nvc);
                    vstd::arithmetic::mul::lemma_mul_is_commutative(l / nvc, nvc);
                }
            }
        }
        lemma_select_all_covers(nvr, nvc, row_of_linear(l, nvc), col_of_linear(l, nvc));
    }
    assert(covered =~= vstd::set_lib::set_int_range(0, nvr * nvc));
    vstd::set_lib::lemma_int_range(0, nvr * nvc);
}

} // verus!
