//! The command and undo engine.
//!
//! All Row Store, sort, column-visibility and selection mutation goes
//! through [`Command`] values. Applying a command returns its exact inverse:
//! the values needed to undo are moved out of the table into the inverse
//! command, so undo and redo restore state bit for bit, with no reliance on
//! the viewer. The engine keeps two bounded stacks of command lists; undoing
//! applies the top list and pushes the flipped list onto the redo stack.
//!
//! Commands are resolved before they are logged: viewer hooks (write and
//! deletion confirmation) are consulted once, when the user acts, and the
//! logged command reflects only what actually applied, so replay never
//! re-prompts and is deterministic.

use vstd::prelude::*;

use crate::store::RowStore;
use crate::viewer::RowViewer;
use crate::viewer::CellWriteContext;

verus! {

/// One multi-key sort criterion: a column and a direction.
#[derive(Debug, Clone, Copy, PartialEq, Eq, Structural)]
pub struct SortKey {
    pub column: usize,
    pub ascending: bool,
}

/// A rectangular selection over the visible grid, as a pair of linear
/// indices (top-left, bottom-right). Invariant: `.0 <= .1`.
#[derive(Debug, Clone, Copy, PartialEq, Eq, Structural)]
pub struct VisSelection(pub usize, pub usize);

/// The committed selection: a set of rectangles plus the single interactive
/// (focus) cell, all in linear indices over the visible grid.
#[derive(Debug, Clone)]
pub struct SelectionState {
    pub ranges: Vec<VisSelection>,
    pub interactive: Option<usize>,
}

/// The edit session state: at most one cell is being edited, holding a
/// detached working copy of its row.
pub enum EditState<R> {
    Idle,
    Editing { row_id: usize, column: usize, working: R, want_focus: bool },
}

/// An atomic, invertible mutation. The only path to Row Store, sort,
/// column-visibility and selection changes.
pub enum Command<R> {
    /// Replace the value of a live row.
    SetRowValue(usize, R),
    /// Insert a fresh row before arena position `.0`; its id is the next
    /// fresh id.
    InsertRow(usize, R),
    /// Remove the row with the newest id and discard its slot entirely
    /// (exact inverse of `InsertRow`).
    PopRow(usize),
    /// Remove a live row; its slot stays reserved so the id is not reused.
    RemoveRow(usize),
    /// Revive a removed row: (arena position, id, value). Exact inverse of
    /// `RemoveRow`.
    RestoreRow(usize, usize, R),
    /// Replace the sort specification.
    SetSort(Vec<SortKey>),
    /// Replace the visible-column order (hide/show/reorder).
    SetVisibleColumns(Vec<usize>),
    /// Replace the committed selection.
    SetSelection(SelectionState),
}

/// The mathematical state a command acts on: the Row Store (slot table and
/// arena order), the View Projection inputs (sort, visible columns), and
/// the selection.
#[verifier::ext_equal]
pub ghost struct TableSnap<R> {
    pub table: Seq<Option<R>>,
    pub ids: Seq<usize>,
    pub sort: Seq<SortKey>,
    pub vis_cols: Seq<usize>,
    pub ranges: Seq<VisSelection>,
    pub interactive: Option<usize>,
    pub num_columns: usize,
}

/// The position of `x` in `s` (meaningful when `s` contains `x` exactly once).
pub open spec fn seq_pos<A>(s: Seq<A>, x: A) -> int {
    choose|i: int| 0 <= i < s.len() && s[i] == x
}

impl<R> TableSnap<R> {
    /// Whether `id` names a live row.
    pub open spec fn live(self, id: usize) -> bool {
        id < self.table.len() && self.table[id as int] is Some
    }

    /// The value of live row `id`.
    pub open spec fn row(self, id: usize) -> R {
        self.table[id as int].unwrap()
    }

    /// Internal consistency of the snapshot: the arena order lists exactly
    /// the live slots, once each; sort keys and visible columns name real
    /// columns; visible columns are distinct and nonempty; selection
    /// rectangles are normalized.
    pub open spec fn wf(self) -> bool {
        &&& forall|i: int|
            0 <= i < self.ids.len() ==> (#[trigger] self.ids[i]) < self.table.len()
                && self.table[self.ids[i] as int] is Some
        &&& forall|i: int, j: int|
            0 <= i < self.ids.len() && 0 <= j < self.ids.len() && i != j
                ==> #[trigger] self.ids[i] != #[trigger] self.ids[j]
        &&& forall|id: int|
            0 <= id < self.table.len() && self.table[id] is Some ==> #[trigger] self.ids.contains(
                id as usize,
            )
        &&& forall|i: int|
            0 <= i < self.sort.len() ==> (#[trigger] self.sort[i]).column < self.num_columns
        &&& forall|i: int|
            0 <= i < self.vis_cols.len() ==> (#[trigger] self.vis_cols[i]) < self.num_columns
        &&& forall|i: int, j: int|
            0 <= i < self.vis_cols.len() && 0 <= j < self.vis_cols.len() && i != j
                ==> #[trigger] self.vis_cols[i] != #[trigger] self.vis_cols[j]
        &&& self.vis_cols.len() >= 1
        &&& self.num_columns >= 1
        &&& self.table.len() <= usize::MAX
        &&& forall|i: int|
            0 <= i < self.ranges.len() ==> (#[trigger] self.ranges[i]).0 <= self.ranges[i].1
    }
}

/// When a command is applicable to a snapshot.
pub open spec fn cmd_wf<R>(s: TableSnap<R>, c: Command<R>) -> bool {
    match c {
        Command::SetRowValue(id, _) => s.live(id),
        Command::InsertRow(pos, _) => pos <= s.ids.len() && s.table.len() < usize::MAX,
        Command::PopRow(id) => id as int + 1 == s.table.len() && s.live(id),
        Command::RemoveRow(id) => s.live(id),
        Command::RestoreRow(pos, id, _) => pos <= s.ids.len() && id < s.table.len()
            && s.table[id as int] is None,
        Command::SetSort(keys) => forall|i: int|
            0 <= i < keys@.len() ==> (#[trigger] keys@[i]).column < s.num_columns,
        Command::SetVisibleColumns(cols) => {
            &&& cols@.len() >= 1
            &&& forall|i: int| 0 <= i < cols@.len() ==> (#[trigger] cols@[i]) < s.num_columns
            &&& forall|i: int, j: int|
                0 <= i < cols@.len() && 0 <= j < cols@.len() && i != j ==> #[trigger] cols@[i]
                    != #[trigger] cols@[j]
        },
        Command::SetSelection(sel) => forall|i: int|
            0 <= i < sel.ranges@.len() ==> (#[trigger] sel.ranges@[i]).0 <= sel.ranges@[i].1,
    }
}

/// What applying a command does to a snapshot.
pub open spec fn apply_cmd<R>(s: TableSnap<R>, c: Command<R>) -> TableSnap<R> {
    match c {
        Command::SetRowValue(id, v) => TableSnap {
            table: s.table.update(id as int, Some(v)),
            ..s
        },
        Command::InsertRow(pos, v) => TableSnap {
            table: s.table.push(Some(v)),
            ids: s.ids.insert(pos as int, s.table.len() as usize),
            ..s
        },
        Command::PopRow(id) => TableSnap {
            table: s.table.drop_last(),
            ids: s.ids.remove(seq_pos(s.ids, id)),
            ..s
        },
        Command::RemoveRow(id) => TableSnap {
            table: s.table.update(id as int, None),
            ids: s.ids.remove(seq_pos(s.ids, id)),
            ..s
        },
        Command::RestoreRow(pos, id, v) => TableSnap {
            table: s.table.update(id as int, Some(v)),
            ids: s.ids.insert(pos as int, id),
            ..s
        },
        Command::SetSort(keys) => TableSnap { sort: keys@, ..s },
        Command::SetVisibleColumns(cols) => TableSnap { vis_cols: cols@, ..s },
        Command::SetSelection(sel) => TableSnap {
            ranges: sel.ranges@,
            interactive: sel.interactive,
            ..s
        },
    }
}

/// The exact-inverse relation: `flip` is the command that takes
/// `apply_cmd(s, c)` back to `s`.
pub open spec fn is_inverse<R>(s: TableSnap<R>, c: Command<R>, flip: Command<R>) -> bool {
    match c {
        Command::SetRowValue(id, _) => flip matches Command::SetRowValue(id2, v2) && id2 == id
            && Some(v2) == s.table[id as int],
        Command::InsertRow(pos, _) => flip matches Command::PopRow(id2) && id2 as int
            == s.table.len(),
        Command::PopRow(id) => flip matches Command::InsertRow(pos2, v2) && pos2 as int == seq_pos(
            s.ids,
            id,
        ) && Some(v2) == s.table[id as int],
        Command::RemoveRow(id) => flip matches Command::RestoreRow(pos2, id2, v2) && id2 == id
            && pos2 as int == seq_pos(s.ids, id) && Some(v2) == s.table[id as int],
        Command::RestoreRow(pos, id, _) => flip matches Command::RemoveRow(id2) && id2 == id,
        Command::SetSort(_) => flip matches Command::SetSort(k2) && k2@ == s.sort,
        Command::SetVisibleColumns(_) => flip matches Command::SetVisibleColumns(c2) && c2@
            == s.vis_cols,
        Command::SetSelection(_) => flip matches Command::SetSelection(sel2) && sel2.ranges@
            == s.ranges && sel2.interactive == s.interactive,
    }
}

/// Sequential applicability of a command list.
pub open spec fn cmds_wf<R>(s: TableSnap<R>, cs: Seq<Command<R>>) -> bool
    decreases cs.len(),
{
    cs.len() == 0 || (cmd_wf(s, cs.first()) && cmds_wf(apply_cmd(s, cs.first()), cs.drop_first()))
}

/// Sequential application of a command list.
pub open spec fn apply_cmds<R>(s: TableSnap<R>, cs: Seq<Command<R>>) -> TableSnap<R>
    decreases cs.len(),
{
    if cs.len() == 0 {
        s
    } else {
        apply_cmds(apply_cmd(s, cs.first()), cs.drop_first())
    }
}

/// `flips` undoes `cs`: the first command's flip is applied last.
pub open spec fn is_inverse_list<R>(
    s: TableSnap<R>,
    cs: Seq<Command<R>>,
    flips: Seq<Command<R>>,
) -> bool
    decreases cs.len(),
{
    &&& flips.len() == cs.len()
    &&& cs.len() > 0 ==> {
        &&& is_inverse(s, cs.first(), flips.last())
        &&& is_inverse_list(apply_cmd(s, cs.first()), cs.drop_first(), flips.drop_last())
    }
}


/// No element occurs twice.
pub open spec fn distinct_seq<A>(s: Seq<A>) -> bool {
    forall|i: int, j: int|
        0 <= i < s.len() && 0 <= j < s.len() && i != j ==> #[trigger] s[i] != #[trigger] s[j]
}

/// In a duplicate-free sequence, `seq_pos` finds exactly the known witness.
pub proof fn lemma_seq_pos<A>(s: Seq<A>, x: A, w: int)
    requires
        distinct_seq(s),
        0 <= w < s.len(),
        s[w] == x,
    ensures
        seq_pos(s, x) == w,
{
    let p = seq_pos(s, x);
    assert(0 <= p < s.len() && s[p] == x) by {
        assert(0 <= w < s.len() && s[w] == x);
    }
}

/// Applying a command and then its inverse restores the snapshot exactly,
/// and both steps stay applicable and well-formed.
pub proof fn lemma_flip_restores<R>(s: TableSnap<R>, c: Command<R>, flip: Command<R>)
    requires
        s.wf(),
        cmd_wf(s, c),
        is_inverse(s, c, flip),
    ensures
        apply_cmd(s, c).wf(),
        cmd_wf(apply_cmd(s, c), flip),
        apply_cmd(apply_cmd(s, c), flip) == s,
{
    let s1 = apply_cmd(s, c);
    let s2 = apply_cmd(s1, flip);
    match c {
        Command::SetRowValue(id, v) => {
            assert(s1.wf()) by {
                assert forall|sid: int|
                    0 <= sid < s1.table.len() && s1.table[sid] is Some
                    implies #[trigger] s1.ids.contains(sid as usize) by {
                    if sid != id {
                        assert(s.table[sid] is Some);
                    } else {
                        assert(s.table[sid] is Some);
                        assert(s.ids.contains(sid as usize));
                    }
                }
            }
            assert(s2.table =~= s.table);
            assert(s2 =~= s);
        },
        Command::InsertRow(pos, v) => {
            let fid = s.table.len() as usize;
            assert(forall|i: int| 0 <= i < s.ids.len() ==> (#[trigger] s.ids[i]) != fid);
            assert(s1.wf()) by {
                assert forall|sid: int|
                    0 <= sid < s1.table.len() && s1.table[sid] is Some
                    implies #[trigger] s1.ids.contains(sid as usize) by {
                    if sid < s.table.len() {
                        assert(s.table[sid] is Some);
                        let w = seq_pos(s.ids, sid as usize);
                        assert(s.ids.contains(sid as usize));
                        assert(0 <= w < s.ids.len() && s.ids[w] == sid as usize);
                        if w < pos {
                            assert(s1.ids[w] == sid as usize);
                        } else {
                            assert(s1.ids[w + 1] == sid as usize);
                        }
                    } else {
                        assert(s1.ids[pos as int] == sid as usize);
                    }
                }
            }
            // flip is PopRow(fid)
            assert(cmd_wf(s1, flip)) by {
                assert(s1.table[fid as int] is Some);
            }
            assert(distinct_seq(s1.ids));
            assert(s1.ids[pos as int] == fid);
            lemma_seq_pos(s1.ids, fid, pos as int);
            assert(s2.table =~= s.table);
            assert(s2.ids =~= s.ids);
            assert(s2 =~= s);
        },
        Command::PopRow(id) => {
            assert(s.ids.contains((id as int) as usize));
            assert(s.ids.contains(id));
            let p = seq_pos(s.ids, id);
            assert(0 <= p < s.ids.len() && s.ids[p] == id);
            assert(s1.wf()) by {
                assert forall|sid: int|
                    0 <= sid < s1.table.len() && s1.table[sid] is Some
                    implies #[trigger] s1.ids.contains(sid as usize) by {
                    assert(s.table[sid] is Some);
                    assert(s.ids.contains(sid as usize));
                    let w = seq_pos(s.ids, sid as usize);
                    assert(0 <= w < s.ids.len() && s.ids[w] == sid as usize);
                    assert(w != p);
                    if w < p {
                        assert(s1.ids[w] == sid as usize);
                    } else {
                        assert(s1.ids[w - 1] == sid as usize);
                    }
                }
            }
            // flip is InsertRow(p, original value)
            assert(s1.table.len() == id as int);
            assert(s2.table =~= s.table);
            assert(s2.ids =~= s.ids);
            assert(s2 =~= s);
        },
        Command::RemoveRow(id) => {
            assert(s.ids.contains((id as int) as usize));
            assert(s.ids.contains(id));
            let p = seq_pos(s.ids, id);
            assert(0 <= p < s.ids.len() && s.ids[p] == id);
            assert(s1.wf()) by {
                assert forall|sid: int|
                    0 <= sid < s1.table.len() && s1.table[sid] is Some
                    implies #[trigger] s1.ids.contains(sid as usize) by {
                    assert(sid != id);
                    assert(s.table[sid] is Some);
                    assert(s.ids.contains(sid as usize));
                    let w = seq_pos(s.ids, sid as usize);
                    assert(0 <= w < s.ids.len() && s.ids[w] == sid as usize);
                    assert(w != p);
                    if w < p {
                        assert(s1.ids[w] == sid as usize);
                    } else {
                        assert(s1.ids[w - 1] == sid as usize);
                    }
                }
            }
            assert(s2.table =~= s.table);
            assert(s2.ids =~= s.ids);
            assert(s2 =~= s);
        },
        Command::RestoreRow(pos, id, v) => {
            assert(forall|i: int| 0 <= i < s.ids.len() ==> (#[trigger] s.ids[i]) != id);
            assert(s1.wf()) by {
                assert forall|sid: int|
                    0 <= sid < s1.table.len() && s1.table[sid] is Some
                    implies #[trigger] s1.ids.contains(sid as usize) by {
                    if sid != id {
                        assert(s.table[sid] is Some);
                        assert(s.ids.contains(sid as usize));
                        let w = seq_pos(s.ids, sid as usize);
                        assert(0 <= w < s.ids.len() && s.ids[w] == sid as usize);
                        if w < pos {
                            assert(s1.ids[w] == sid as usize);
                        } else {
                            assert(s1.ids[w + 1] == sid as usize);
                        }
                    } else {
                        assert(s1.ids[pos as int] == sid as usize);
                    }
                }
            }
            assert(distinct_seq(s1.ids));
            assert(s1.ids[pos as int] == id);
            lemma_seq_pos(s1.ids, id, pos as int);
            assert(s2.table =~= s.table);
            assert(s2.ids =~= s.ids);
            assert(s2 =~= s);
        },
        Command::SetSort(_) => {
            assert(s2 =~= s);
        },
        Command::SetVisibleColumns(_) => {
            assert(s2 =~= s);
        },
        Command::SetSelection(_) => {
            assert(s2 =~= s);
        },
    }
}

/// Appending one command to a list applies it last.
pub proof fn lemma_apply_cmds_snoc<R>(s: TableSnap<R>, cs: Seq<Command<R>>, c: Command<R>)
    ensures
        apply_cmds(s, cs.push(c)) == apply_cmd(apply_cmds(s, cs), c),
        cmds_wf(s, cs.push(c)) == (cmds_wf(s, cs) && cmd_wf(apply_cmds(s, cs), c)),
    decreases cs.len(),
{
    if cs.len() == 0 {
        assert(cs.push(c).drop_first() =~= Seq::<Command<R>>::empty());
        assert(cs.push(c).first() == c);
        let s1 = apply_cmd(s, c);
        assert(apply_cmds(s, cs.push(c)) == apply_cmds(s1, Seq::<Command<R>>::empty()));
        assert(apply_cmds(s1, Seq::<Command<R>>::empty()) == s1);
        assert(apply_cmds(s, cs) == s);
        assert(cmds_wf(s1, Seq::<Command<R>>::empty()));
        assert(cmds_wf(s, cs));
    } else {
        assert(cs.push(c).first() == cs.first());
        assert(cs.push(c).drop_first() =~= cs.drop_first().push(c));
        let s1 = apply_cmd(s, cs.first());
        lemma_apply_cmds_snoc(s1, cs.drop_first(), c);
        assert(apply_cmds(s, cs.push(c)) == apply_cmds(s1, cs.drop_first().push(c)));
        assert(apply_cmds(s, cs) == apply_cmds(s1, cs.drop_first()));
        assert(cmds_wf(s, cs.push(c)) == (cmd_wf(s, cs.first()) && cmds_wf(
            s1,
            cs.drop_first().push(c),
        )));
        assert(cmds_wf(s, cs) == (cmd_wf(s, cs.first()) && cmds_wf(s1, cs.drop_first())));
    }
}

/// The undo law: for any command list, applying it and then its inverse
/// list restores the Row Store, the View Projection inputs (sort, visible
/// columns) and the selection exactly — the whole snapshot, bit for bit.
/// The inverse list is itself applicable in sequence, so undo never gets
/// stuck.
pub proof fn lemma_apply_inverse_list<R>(
    s: TableSnap<R>,
    cs: Seq<Command<R>>,
    flips: Seq<Command<R>>,
)
    requires
        s.wf(),
        cmds_wf(s, cs),
        is_inverse_list(s, cs, flips),
    ensures
        apply_cmds(s, cs).wf(),
        cmds_wf(apply_cmds(s, cs), flips),
        apply_cmds(apply_cmds(s, cs), flips) == s,
    decreases cs.len(),
{
    if cs.len() == 0 {
    } else {
        let c = cs.first();
        let fl = flips.last();
        let s1 = apply_cmd(s, c);
        let sf = apply_cmds(s, cs);
        lemma_flip_restores(s, c, fl);
        lemma_apply_inverse_list(s1, cs.drop_first(), flips.drop_last());
        assert(apply_cmds(s1, cs.drop_first()) == sf);
        assert(apply_cmds(sf, flips.drop_last()) == s1);
        assert(flips.drop_last().push(fl) =~= flips);
        lemma_apply_cmds_snoc(sf, flips.drop_last(), fl);
        assert(apply_cmds(sf, flips) == apply_cmd(s1, fl));
        assert(apply_cmd(s1, fl) == s);
    }
}


/// One undo-log entry: the command list that crosses between two adjacent
/// states of the table. `cmds` is applicable at `near` and leads to `far`;
/// applying it flips the entry around.
pub struct UndoEntry<R> {
    pub cmds: Vec<Command<R>>,
    pub near: Ghost<TableSnap<R>>,
    pub far: Ghost<TableSnap<R>>,
}

pub open spec fn entry_wf<R>(e: UndoEntry<R>) -> bool {
    &&& e.near@.wf()
    &&& cmds_wf(e.near@, e.cmds@)
    &&& apply_cmds(e.near@, e.cmds@) == e.far@
}

/// A stack of entries hanging off the snapshot `s`: the top entry applies
/// at `s`, the one below it at that entry's other side, and so on.
pub open spec fn stack_valid<R>(s: TableSnap<R>, entries: Seq<UndoEntry<R>>) -> bool
    decreases entries.len(),
{
    entries.len() == 0 || {
        &&& entry_wf(entries.last())
        &&& entries.last().near@ == s
        &&& stack_valid(entries.last().far@, entries.drop_last())
    }
}

/// Evicting the oldest (bottom) entry keeps a stack valid.
pub proof fn lemma_stack_evict<R>(s: TableSnap<R>, entries: Seq<UndoEntry<R>>)
    requires
        stack_valid(s, entries),
        entries.len() >= 1,
    ensures
        stack_valid(s, entries.drop_first()),
    decreases entries.len(),
{
    if entries.len() == 1 {
        assert(entries.drop_first().len() == 0);
    } else {
        lemma_stack_evict(entries.last().far@, entries.drop_last());
        assert(entries.drop_first().len() > 0);
        assert(entries.drop_first().last() == entries.last());
        assert(entries.drop_first().drop_last() =~= entries.drop_last().drop_first());
        assert(stack_valid(entries.last().far@, entries.drop_last().drop_first()));
        assert(stack_valid(entries.last().far@, entries.drop_first().drop_last()));
        assert(entry_wf(entries.drop_first().last()));
        assert(entries.drop_first().last().near@ == s);
    }
}

/// Extending a forward list by one command extends its inverse list at the
/// front.
pub proof fn lemma_inverse_list_snoc<R>(
    s: TableSnap<R>,
    cs: Seq<Command<R>>,
    fs: Seq<Command<R>>,
    c: Command<R>,
    f: Command<R>,
)
    requires
        is_inverse_list(s, cs, fs),
        is_inverse(apply_cmds(s, cs), c, f),
    ensures
        is_inverse_list(s, cs.push(c), fs.insert(0, f)),
    decreases cs.len(),
{
    if cs.len() == 0 {
        assert(fs.len() == 0);
        assert(cs.push(c).first() == c);
        assert(cs.push(c).drop_first() =~= Seq::<Command<R>>::empty());
        assert(fs.insert(0, f).last() == f);
        assert(fs.insert(0, f).drop_last() =~= Seq::<Command<R>>::empty());
        assert(apply_cmds(s, cs) == s);
        assert(is_inverse(s, cs.push(c).first(), fs.insert(0, f).last()));
        assert(is_inverse_list(
            apply_cmd(s, cs.push(c).first()),
            cs.push(c).drop_first(),
            fs.insert(0, f).drop_last(),
        ));
    } else {
        let s1 = apply_cmd(s, cs.first());
        assert(cs.push(c).first() == cs.first());
        assert(cs.push(c).drop_first() =~= cs.drop_first().push(c));
        assert(fs.insert(0, f).last() == fs.last());
        assert(fs.insert(0, f).drop_last() =~= fs.drop_last().insert(0, f));
        assert(apply_cmds(s, cs) == apply_cmds(s1, cs.drop_first()));
        lemma_inverse_list_snoc(s1, cs.drop_first(), fs.drop_last(), c, f);
        assert(is_inverse(s, cs.push(c).first(), fs.insert(0, f).last()));
        assert(is_inverse_list(
            apply_cmd(s, cs.push(c).first()),
            cs.push(c).drop_first(),
            fs.insert(0, f).drop_last(),
        ));
        assert(fs.insert(0, f).len() == cs.push(c).len());
    }
}

/// Whether a command invalidates the cached visible-row projection.
pub open spec fn cmd_dirties<R>(c: Command<R>) -> bool {
    !(c is SetSelection)
}

/// Whether the list removes the row `id` from the store.
pub open spec fn list_removes_row<R>(cs: Seq<Command<R>>, id: usize) -> bool {
    exists|i: int|
        0 <= i < cs.len() && match #[trigger] cs[i] {
            Command::RemoveRow(id2) => id2 == id,
            Command::PopRow(id2) => id2 == id,
            _ => false,
        }
}

/// Whether the list hides the column `column`.
pub open spec fn list_hides_column<R>(cs: Seq<Command<R>>, column: usize) -> bool {
    exists|i: int|
        0 <= i < cs.len() && match #[trigger] cs[i] {
            Command::SetVisibleColumns(cols) => !cols@.contains(column),
            _ => false,
        }
}

/// The engine: the Row Store, the View Projection inputs and cache, the
/// selection, the edit session, and the bounded undo/redo log.
pub struct DataTable<R> {
    pub store: RowStore<R>,
    pub sort: Vec<SortKey>,
    pub vis_cols: Vec<usize>,
    pub num_columns: usize,
    pub selection: SelectionState,
    /// Cached projection: visible stable ids, in visible order. Valid only
    /// while `projection_dirty` is false.
    pub visible_rows: Vec<usize>,
    pub projection_dirty: bool,
    /// Fingerprint of the filter the cached projection was computed with.
    pub last_filter_fingerprint: u64,
    pub edit: EditState<R>,
    pub undo: Vec<UndoEntry<R>>,
    pub redo: Vec<UndoEntry<R>>,
    /// Bound on the history; at least 1.
    pub max_undo: usize,
}

/// The default undo-history bound, selected when the host configures 0.
pub const DEFAULT_UNDO_CAP: usize = 100;

impl<R> DataTable<R> {
    /// The mathematical state of everything commands act on.
    pub open spec fn snap(self) -> TableSnap<R> {
        TableSnap {
            table: self.store.table(),
            ids: self.store.ids(),
            sort: self.sort@,
            vis_cols: self.vis_cols@,
            ranges: self.selection.ranges@,
            interactive: self.selection.interactive,
            num_columns: self.num_columns,
        }
    }

    /// The edit session points at a live row and a real column.
    pub open spec fn edit_wf(self) -> bool {
        match self.edit {
            EditState::Idle => true,
            EditState::Editing { row_id, column, .. } => self.snap().live(row_id) && column
                < self.num_columns,
        }
    }

    /// The cached projection lists distinct live rows.
    pub open spec fn projection_ok(self) -> bool {
        &&& forall|i: int|
            0 <= i < self.visible_rows@.len() ==> self.snap().live(
                #[trigger] self.visible_rows@[i],
            )
        &&& distinct_seq(self.visible_rows@)
    }

    /// Well-formedness of the data (everything but the history stacks).
    pub open spec fn wf_data(self) -> bool {
        &&& self.snap().wf()
        &&& self.edit_wf()
        &&& self.max_undo >= 1
        &&& !self.projection_dirty ==> self.projection_ok()
    }

    /// Full well-formedness: data, both history stacks valid against the
    /// current state, and the history bounded by the configured cap.
    pub open spec fn wf(self) -> bool {
        &&& self.wf_data()
        &&& stack_valid(self.snap(), self.undo@)
        &&& stack_valid(self.snap(), self.redo@)
        &&& self.undo@.len() + self.redo@.len() <= self.max_undo
    }

    /// A fresh engine over `num_columns` columns: empty store, no sort, all
    /// columns visible in natural order, nothing selected, idle edit state,
    /// empty history with the default cap.
    pub fn new(num_columns: usize) -> (t: Self)
        requires
            1 <= num_columns,
        ensures
            t.wf(),
            t.snap().table == Seq::<Option<R>>::empty(),
            t.snap().ids == Seq::<usize>::empty(),
            t.snap().sort == Seq::<SortKey>::empty(),
            t.snap().vis_cols == Seq::new(num_columns as nat, |i: int| i as usize),
            t.snap().ranges == Seq::<VisSelection>::empty(),
            t.snap().interactive is None,
            t.snap().num_columns == num_columns,
            t.undo@.len() == 0,
            t.redo@.len() == 0,
            t.edit is Idle,
            t.max_undo == DEFAULT_UNDO_CAP,
    {
        let mut vis_cols: Vec<usize> = Vec::new();
        let mut c: usize = 0;
        while c < num_columns
            invariant
                c <= num_columns,
                vis_cols@.len() == c,
                forall|i: int| 0 <= i < c ==> #[trigger] vis_cols@[i] == i as usize,
            decreases num_columns - c,
        {
            vis_cols.push(c);
            c = c + 1;
        }
        let t = DataTable {
            store: RowStore::new(),
            sort: Vec::new(),
            vis_cols,
            num_columns,
            selection: SelectionState { ranges: Vec::new(), interactive: None },
            visible_rows: Vec::new(),
            projection_dirty: true,
            last_filter_fingerprint: 0,
            edit: EditState::Idle,
            undo: Vec::new(),
            redo: Vec::new(),
            max_undo: DEFAULT_UNDO_CAP,
        };
        proof {
            assert(t.snap().vis_cols =~= Seq::new(num_columns as nat, |i: int| i as usize));
        }
        t
    }

    /// Configure the undo-history cap; 0 selects the default. Existing
    /// entries beyond the new cap are evicted, oldest first.
    pub fn set_max_undo(&mut self, cap: usize)
        requires
            old(self).wf(),
        ensures
            final(self).wf(),
            final(self).max_undo == if cap == 0 {
                DEFAULT_UNDO_CAP as usize
            } else {
                cap
            },
            final(self).snap() == old(self).snap(),
            final(self).edit == old(self).edit,
    {
        let cap = if cap == 0 {
            DEFAULT_UNDO_CAP
        } else {
            cap
        };
        self.max_undo = cap;
        while self.redo.len() > cap
            invariant
                stack_valid(self.snap(), self.undo@),
                stack_valid(self.snap(), self.redo@),
                self.wf_data(),
                self.max_undo == cap,
                cap >= 1,
                self.snap() == old(self).snap(),
                self.edit == old(self).edit,
            decreases self.redo.len(),
        {
            proof {
                lemma_stack_evict(self.snap(), self.redo@);
            }
            let _evicted = self.redo.remove(0);
        }
        while self.undo.len() > cap - self.redo.len()
            invariant
                stack_valid(self.snap(), self.undo@),
                stack_valid(self.snap(), self.redo@),
                self.wf_data(),
                self.max_undo == cap,
                cap >= 1,
                self.redo.len() <= cap,
                self.snap() == old(self).snap(),
                self.edit == old(self).edit,
            decreases self.undo.len(),
        {
            proof {
                lemma_stack_evict(self.snap(), self.undo@);
            }
            let _evicted = self.undo.remove(0);
        }
    }

    /// Apply one command, returning its exact inverse. The values needed to
    /// undo are moved out of the table into the returned command.
    fn apply_one<V: RowViewer<R>>(&mut self, viewer: &mut V, cmd: Command<R>) -> (flip: Command<R>)
        requires
            old(self).wf_data(),
            cmd_wf(old(self).snap(), cmd),
            old(self).edit matches EditState::Editing { row_id, .. } ==> match cmd {
                Command::RemoveRow(id2) => id2 != row_id,
                Command::PopRow(id2) => id2 != row_id,
                _ => true,
            },
        ensures
            final(self).wf_data(),
            final(self).snap() == apply_cmd(old(self).snap(), cmd),
            is_inverse(old(self).snap(), cmd, flip),
            final(self).edit == old(self).edit,
            final(self).undo == old(self).undo,
            final(self).redo == old(self).redo,
            final(self).max_undo == old(self).max_undo,
            final(self).visible_rows == old(self).visible_rows,
            final(self).last_filter_fingerprint == old(self).last_filter_fingerprint,
            final(self).projection_dirty == (old(self).projection_dirty || cmd_dirties(cmd)),
    {
        let ghost s0 = self.snap();
        if !matches!(cmd, Command::SetSelection(_)) {
            self.projection_dirty = true;
        }
        let flip = match cmd {
            Command::SetRowValue(id, v) => {
                let prev = self.store.replace(id, v);
                viewer.on_row_updated(id, self.store.get(id), &prev);
                Command::SetRowValue(id, prev)
            },
            Command::InsertRow(pos, v) => {
                let id = self.store.insert_at(pos, v);
                viewer.on_row_inserted(id, self.store.get(id));
                Command::PopRow(id)
            },
            Command::PopRow(id) => {
                let (pos, v) = self.store.pop_newest(id);
                proof {
                    lemma_seq_pos(s0.ids, id, pos as int);
                }
                viewer.on_row_removed(id, &v);
                Command::InsertRow(pos, v)
            },
            Command::RemoveRow(id) => {
                let (pos, v) = self.store.remove_id(id);
                proof {
                    lemma_seq_pos(s0.ids, id, pos as int);
                }
                viewer.on_row_removed(id, &v);
                Command::RestoreRow(pos, id, v)
            },
            Command::RestoreRow(pos, id, v) => {
                self.store.restore(pos, id, v);
                viewer.on_row_inserted(id, self.store.get(id));
                Command::RemoveRow(id)
            },
            Command::SetSort(keys) => {
                let mut keys = keys;
                core::mem::swap(&mut self.sort, &mut keys);
                Command::SetSort(keys)
            },
            Command::SetVisibleColumns(cols) => {
                let mut cols = cols;
                core::mem::swap(&mut self.vis_cols, &mut cols);
                Command::SetVisibleColumns(cols)
            },
            Command::SetSelection(sel) => {
                let mut sel = sel;
                core::mem::swap(&mut self.selection, &mut sel);
                Command::SetSelection(sel)
            },
        };
        proof {
            assert(self.snap() =~= apply_cmd(s0, cmd));
            lemma_flip_restores(s0, cmd, flip);
        }
        flip
    }

    /// Apply a list of commands in order, returning the inverse list (in its
    /// own application order: the first command's inverse comes last).
    fn apply_list<V: RowViewer<R>>(&mut self, viewer: &mut V, cmds: Vec<Command<R>>) -> (flips: Vec<
        Command<R>,
    >)
        requires
            old(self).wf_data(),
            cmds_wf(old(self).snap(), cmds@),
            old(self).edit matches EditState::Editing { row_id, .. }
                ==> !list_removes_row(cmds@, row_id),
        ensures
            final(self).wf_data(),
            final(self).snap() == apply_cmds(old(self).snap(), cmds@),
            is_inverse_list(old(self).snap(), cmds@, flips@),
            flips@.len() == cmds@.len(),
            final(self).edit == old(self).edit,
            final(self).undo == old(self).undo,
            final(self).redo == old(self).redo,
            final(self).max_undo == old(self).max_undo,
            final(self).visible_rows == old(self).visible_rows,
            final(self).last_filter_fingerprint == old(self).last_filter_fingerprint,
            final(self).projection_dirty == (old(self).projection_dirty || exists|i: int|
                0 <= i < cmds@.len() && cmd_dirties(#[trigger] cmds@[i])),
    {
        let ghost s0 = self.snap();
        let ghost orig = cmds@;
        let mut cmds = cmds;
        let mut flips: Vec<Command<R>> = Vec::new();
        let ghost mut k: int = 0;
        while cmds.len() > 0
            invariant
                self.wf_data(),
                0 <= k <= orig.len(),
                cmds@ =~= orig.skip(k),
                self.snap() == apply_cmds(s0, orig.take(k)),
                cmds_wf(self.snap(), cmds@),
                is_inverse_list(s0, orig.take(k), flips@),
                flips@.len() == k,
                self.edit == old(self).edit,
                self.undo == old(self).undo,
                self.redo == old(self).redo,
                self.max_undo == old(self).max_undo,
                self.visible_rows == old(self).visible_rows,
                self.last_filter_fingerprint == old(self).last_filter_fingerprint,
                self.projection_dirty == (old(self).projection_dirty || exists|j: int|
                    0 <= j < k && cmd_dirties(#[trigger] orig[j])),
                self.edit matches EditState::Editing { row_id, .. } ==> !list_removes_row(
                    cmds@,
                    row_id,
                ),
            decreases cmds.len(),
        {
            let ghost snap_pre = self.snap();
            let ghost cmds_pre = cmds@;
            let c = cmds.remove(0);
            proof {
                assert(c == orig[k]);
                assert(cmds@ =~= orig.skip(k + 1));
                assert(cmds_pre.first() == c);
                assert(cmds@ =~= cmds_pre.drop_first());
                let ghost ed = self.edit;
                match ed {
                    EditState::Editing { row_id, .. } => {
                        assert(!(match c {
                            Command::RemoveRow(id2) => id2 == row_id,
                            Command::PopRow(id2) => id2 == row_id,
                            _ => false,
                        })) by {
                            assert(cmds_pre[0] == c);
                        }
                        assert forall|i: int|
                            0 <= i < cmds@.len() implies !(match #[trigger] cmds@[i] {
                            Command::RemoveRow(id2) => id2 == row_id,
                            Command::PopRow(id2) => id2 == row_id,
                            _ => false,
                        }) by {
                            assert(cmds_pre[i + 1] == cmds@[i]);
                        }
                        assert(!list_removes_row(cmds@, row_id));
                    },
                    _ => {},
                }
            }
            let flip = self.apply_one(viewer, c);
            let ghost flips_pre = flips@;
            flips.insert(0, flip);
            proof {
                assert(flips@ =~= flips_pre.insert(0, flip));
                assert(orig.take(k + 1) =~= orig.take(k).push(c));
                lemma_apply_cmds_snoc(s0, orig.take(k), c);
                lemma_inverse_list_snoc(s0, orig.take(k), flips_pre, c, flip);
                k = k + 1;
            }
        }
        proof {
            assert(orig.take(k) =~= orig);
        }
        flips
    }

    /// Whether the command list would remove the edited row or hide the
    /// edited column, forcing the edit session closed.
    pub open spec fn edit_threatened_spec(self, cs: Seq<Command<R>>) -> bool {
        match self.edit {
            EditState::Idle => false,
            EditState::Editing { row_id, column, .. } => list_removes_row(cs, row_id)
                || list_hides_column(cs, column),
        }
    }

    fn edit_threatened(&self, cmds: &Vec<Command<R>>) -> (b: bool)
        ensures
            b == self.edit_threatened_spec(cmds@),
    {
        let (row_id, column) = match &self.edit {
            EditState::Idle => {
                return false;
            },
            EditState::Editing { row_id, column, .. } => (*row_id, *column),
        };
        let n = cmds.len();
        let mut i: usize = 0;
        while i < n
            invariant
                n == cmds@.len(),
                i <= n,
                self.edit matches EditState::Editing { row_id: r2, column: c2, .. } && r2 == row_id
                    && c2 == column,
                !list_removes_row(cmds@.take(i as int), row_id),
                !list_hides_column(cmds@.take(i as int), column),
            decreases n - i,
        {
            let threat = match &cmds[i] {
                Command::RemoveRow(id2) => *id2 == row_id,
                Command::PopRow(id2) => *id2 == row_id,
                Command::SetVisibleColumns(cols) => !vec_contains_usize(cols, column),
                _ => false,
            };
            if threat {
                proof {
                    assert(list_removes_row(cmds@, row_id) || list_hides_column(cmds@, column))
                        by {
                        assert(0 <= i < cmds@.len());
                    }
                }
                return true;
            }
            proof {
                assert(cmds@.take(i + 1) =~= cmds@.take(i as int).push(cmds@[i as int]));
                assert forall|j: int| 0 <= j < i + 1 implies !(match #[trigger] cmds@.take(
                    i + 1,
                )[j] {
                    Command::RemoveRow(id2) => id2 == row_id,
                    Command::PopRow(id2) => id2 == row_id,
                    _ => false,
                }) by {
                    if j < i {
                        assert(cmds@.take(i + 1)[j] == cmds@.take(i as int)[j]);
                    } else {
                        assert(cmds@.take(i + 1)[j] == cmds@[i as int]);
                    }
                }
                assert forall|j: int| 0 <= j < i + 1 implies !(match #[trigger] cmds@.take(
                    i + 1,
                )[j] {
                    Command::SetVisibleColumns(cols) => !cols@.contains(column),
                    _ => false,
                }) by {
                    if j < i {
                        assert(cmds@.take(i + 1)[j] == cmds@.take(i as int)[j]);
                    } else {
                        assert(cmds@.take(i + 1)[j] == cmds@[i as int]);
                    }
                }
            }
            i = i + 1;
        }
        proof {
            assert(cmds@.take(n as int) =~= cmds@);
        }
        false
    }

    /// Abandon the edit session, if any, discarding the working copy. No
    /// store mutation, no history entry.
    pub fn cancel_edit(&mut self)
        requires
            old(self).wf(),
        ensures
            final(self).wf(),
            final(self).edit is Idle,
            final(self).snap() == old(self).snap(),
            final(self).undo == old(self).undo,
            final(self).redo == old(self).redo,
            final(self).max_undo == old(self).max_undo,
            final(self).visible_rows == old(self).visible_rows,
            final(self).projection_dirty == old(self).projection_dirty,
    {
        self.edit = EditState::Idle;
    }

    /// Apply a resolved command list as one undoable action: the commands
    /// are applied in order, their exact inverse is pushed onto the undo
    /// stack (evicting the oldest entry if the cap is reached), and the redo
    /// stack is cleared. An empty list is a no-op. If the list removes the
    /// edited row or hides the edited column, the edit session is first
    /// forced closed (the working copy is discarded).
    pub fn push_command<V: RowViewer<R>>(&mut self, viewer: &mut V, cmds: Vec<Command<R>>)
        requires
            old(self).wf(),
            cmds_wf(old(self).snap(), cmds@),
        ensures
            final(self).wf(),
            cmds@.len() == 0 ==> *final(self) == *old(self),
            cmds@.len() > 0 ==> {
                &&& final(self).snap() == apply_cmds(old(self).snap(), cmds@)
                &&& final(self).redo@.len() == 0
                &&& final(self).undo@.len() as int == if old(self).undo@.len()
                    < old(self).max_undo {
                    old(self).undo@.len() as int + 1
                } else {
                    old(self).max_undo as int
                }
                &&& (old(self).undo@.len() < old(self).max_undo
                    ==> final(self).undo@.drop_last() == old(self).undo@)
                &&& (old(self).undo@.len() >= old(self).max_undo
                    ==> final(self).undo@.drop_last() == old(self).undo@.drop_first())
                &&& is_inverse_list(old(self).snap(), cmds@, final(self).undo@.last().cmds@)
                &&& final(self).undo@.last().near@ == final(self).snap()
                &&& final(self).undo@.last().far@ == old(self).snap()
                &&& final(self).max_undo == old(self).max_undo
                &&& final(self).visible_rows == old(self).visible_rows
                &&& final(self).projection_dirty == (old(self).projection_dirty || exists|i: int|
                    0 <= i < cmds@.len() && cmd_dirties(#[trigger] cmds@[i]))
                &&& final(self).edit == if old(self).edit_threatened_spec(cmds@) {
                    EditState::<R>::Idle
                } else {
                    old(self).edit
                }
            },
    {
        if cmds.is_empty() {
            return ;
        }
        if self.edit_threatened(&cmds) {
            self.edit = EditState::Idle;
        }
        let ghost s0 = self.snap();
        let ghost old_undo = self.undo@;
        let flips = self.apply_list(viewer, cmds);
        proof {
            lemma_apply_inverse_list(s0, cmds@, flips@);
        }
        let entry = UndoEntry { cmds: flips, near: Ghost(self.snap()), far: Ghost(s0) };
        if self.undo.len() >= self.max_undo {
            proof {
                lemma_stack_evict(s0, self.undo@);
            }
            let _evicted = self.undo.remove(0);
        }
        self.undo.push(entry);
        self.redo = Vec::new();
        proof {
            assert(stack_valid(self.snap(), self.undo@)) by {
                assert(self.undo@.last() == entry);
                assert(self.undo@.drop_last() =~= if old_undo.len() < old(self).max_undo {
                    old_undo
                } else {
                    old_undo.drop_first()
                });
            }
            assert(final(self).undo@.drop_last() =~= self.undo@.drop_last());
        }
    }

    pub fn has_undo(&self) -> (b: bool)
        ensures
            b == (self.undo@.len() > 0),
    {
        self.undo.len() > 0
    }

    pub fn has_redo(&self) -> (b: bool)
        ensures
            b == (self.redo@.len() > 0),
    {
        self.redo.len() > 0
    }

    /// Reverse the most recent command: apply the top of the undo stack and
    /// move the entry (flipped) onto the redo stack. Any open edit session
    /// is discarded first. Returns whether anything was undone.
    pub fn undo_one<V: RowViewer<R>>(&mut self, viewer: &mut V) -> (did: bool)
        requires
            old(self).wf(),
        ensures
            final(self).wf(),
            undo_post(*old(self), *final(self), did),
    {
        if self.undo.is_empty() {
            return false;
        }
        self.edit = EditState::Idle;
        let entry = self.undo.pop().unwrap();
        let ghost s0 = self.snap();
        proof {
            assert(old(self).undo@.last() == entry);
            assert(self.undo@ =~= old(self).undo@.drop_last());
            assert(entry.near@ == s0);
        }
        let ghost old_redo = self.redo@;
        let flips = self.apply_list(viewer, entry.cmds);
        proof {
            lemma_apply_inverse_list(s0, old(self).undo@.last().cmds@, flips@);
        }
        let back = UndoEntry { cmds: flips, near: Ghost(self.snap()), far: Ghost(s0) };
        self.redo.push(back);
        proof {
            assert(self.redo@.last() == back);
            assert(self.redo@.drop_last() =~= old_redo);
        }
        true
    }

    /// Re-apply the most recently undone command: apply the top of the redo
    /// stack and move the entry (flipped) back onto the undo stack. Any open
    /// edit session is discarded first. Returns whether anything was redone.
    pub fn redo_one<V: RowViewer<R>>(&mut self, viewer: &mut V) -> (did: bool)
        requires
            old(self).wf(),
        ensures
            final(self).wf(),
            redo_post(*old(self), *final(self), did),
    {
        if self.redo.is_empty() {
            return false;
        }
        self.edit = EditState::Idle;
        let entry = self.redo.pop().unwrap();
        let ghost s0 = self.snap();
        proof {
            assert(old(self).redo@.last() == entry);
            assert(self.redo@ =~= old(self).redo@.drop_last());
            assert(entry.near@ == s0);
        }
        let ghost old_undo = self.undo@;
        let flips = self.apply_list(viewer, entry.cmds);
        proof {
            lemma_apply_inverse_list(s0, old(self).redo@.last().cmds@, flips@);
        }
        let back = UndoEntry { cmds: flips, near: Ghost(self.snap()), far: Ghost(s0) };
        self.undo.push(back);
        proof {
            assert(self.undo@.last() == back);
            assert(self.undo@.drop_last() =~= old_undo);
        }
        true
    }
}

/// An integration error: the host handed the engine a reference that does
/// not match its state. Per the error-handling design these indicate a
/// desynchronized host and are reported loudly rather than absorbed.
#[derive(Debug, Clone, Copy, PartialEq, Eq, Structural)]
pub enum EngineError {
    /// A stable row id does not name a live row.
    InvalidRowId,
    /// A column index is out of range.
    InvalidColumn,
    /// An arena position is out of range.
    InvalidPosition,
    /// A slab index is out of range of the supplied slab.
    InvalidSlabIndex,
    /// The viewer forbids the requested kind of mutation.
    NotAllowed,
    /// The arena has no room for that many fresh rows.
    CapacityExceeded,
}

/// The history bookkeeping of one applied undoable action: the redo stack
/// is cleared, the undo stack gains the action's entry (evicting the oldest
/// when the cap is reached, never the newest), and the new top entry leads
/// from the new state exactly back to the old one, so the following undo
/// restores the prior state bit for bit.
pub open spec fn history_extended<R>(pre: DataTable<R>, post: DataTable<R>) -> bool {
    &&& post.redo@.len() == 0
    &&& post.undo@.len() as int == if pre.undo@.len() < pre.max_undo {
        pre.undo@.len() as int + 1
    } else {
        pre.max_undo as int
    }
    &&& (pre.undo@.len() < pre.max_undo ==> post.undo@.drop_last() == pre.undo@)
    &&& (pre.undo@.len() >= pre.max_undo ==> post.undo@.drop_last() == pre.undo@.drop_first())
    &&& post.undo@.len() >= 1
    &&& post.undo@.last().near@ == post.snap()
    &&& post.undo@.last().far@ == pre.snap()
    &&& post.max_undo == pre.max_undo
}

/// What replacing a row value does, exactly.
pub open spec fn set_row_value_post<R>(
    pre: DataTable<R>,
    post: DataTable<R>,
    id: usize,
    value: R,
    r: Result<(), EngineError>,
) -> bool {
    if pre.snap().live(id) {
        &&& r is Ok
        &&& post.snap() == TableSnap { table: pre.snap().table.update(id as int, Some(value)), ..pre.snap() }
        &&& post.edit == pre.edit
        &&& history_extended(pre, post)
    } else {
        r == Err::<(), EngineError>(EngineError::InvalidRowId) && post == pre
    }
}

/// What replacing the sort specification does, exactly.
pub open spec fn set_sort_post<R>(
    pre: DataTable<R>,
    post: DataTable<R>,
    keys: Seq<SortKey>,
    r: Result<(), EngineError>,
) -> bool {
    if forall|i: int| 0 <= i < keys.len() ==> (#[trigger] keys[i]).column < pre.num_columns {
        &&& r is Ok
        &&& post.snap() == TableSnap { sort: keys, ..pre.snap() }
        &&& post.edit == pre.edit
        &&& history_extended(pre, post)
    } else {
        r == Err::<(), EngineError>(EngineError::InvalidColumn) && post == pre
    }
}

/// Whether a visible-column list is acceptable: nonempty, real columns, no
/// column twice.
pub open spec fn vis_cols_valid(cols: Seq<usize>, num_columns: usize) -> bool {
    &&& cols.len() >= 1
    &&& forall|i: int| 0 <= i < cols.len() ==> (#[trigger] cols[i]) < num_columns
    &&& forall|i: int, j: int|
        0 <= i < cols.len() && 0 <= j < cols.len() && i != j ==> #[trigger] cols[i]
            != #[trigger] cols[j]
}

/// What replacing the visible-column order does, exactly.
pub open spec fn set_visible_columns_post<R>(
    pre: DataTable<R>,
    post: DataTable<R>,
    cols: Seq<usize>,
    r: Result<(), EngineError>,
) -> bool {
    if vis_cols_valid(cols, pre.num_columns) {
        &&& r is Ok
        &&& post.snap() == TableSnap { vis_cols: cols, ..pre.snap() }
        &&& post.edit == if pre.edit matches EditState::Editing { column, .. } && !cols.contains(
            column,
        ) {
            EditState::<R>::Idle
        } else {
            pre.edit
        }
        &&& history_extended(pre, post)
    } else {
        r == Err::<(), EngineError>(EngineError::InvalidColumn) && post == pre
    }
}

/// The rectangle with its corners put in linear order.
pub open spec fn normalized_range(r: VisSelection) -> VisSelection {
    if r.0 <= r.1 {
        r
    } else {
        VisSelection(r.1, r.0)
    }
}

/// What replacing the committed selection does, exactly: the normalized
/// ranges and the interactive cell are installed; nothing else moves, but
/// the change is one undoable action.
pub open spec fn set_selection_post<R>(
    pre: DataTable<R>,
    post: DataTable<R>,
    ranges: Seq<VisSelection>,
    interactive: Option<usize>,
) -> bool {
    &&& post.snap().ranges.len() == ranges.len()
    &&& forall|i: int|
        0 <= i < ranges.len() ==> #[trigger] post.snap().ranges[i] == normalized_range(ranges[i])
    &&& post.snap().interactive == interactive
    &&& post.snap().table == pre.snap().table
    &&& post.snap().ids == pre.snap().ids
    &&& post.snap().sort == pre.snap().sort
    &&& post.snap().vis_cols == pre.snap().vis_cols
    &&& post.edit == pre.edit
    &&& post.projection_dirty == pre.projection_dirty
    &&& post.visible_rows == pre.visible_rows
    &&& history_extended(pre, post)
}

/// What a batched cell write does, exactly: the first invalid entry is
/// reported and nothing moves; otherwise the hook-surviving writes (and only
/// they) are installed, as one undoable action — so the recorded command
/// reflects exactly the writes that applied, and undo is exact.
pub open spec fn set_cells_post<R, V: RowViewer<R>>(
    v: V,
    pre: DataTable<R>,
    post: DataTable<R>,
    slab: Seq<R>,
    values: Seq<(usize, usize, usize)>,
    context: CellWriteContext,
    r: Result<(), EngineError>,
) -> bool {
    match first_write_error(pre.snap(), slab, values) {
        Some(e) => r == Err::<(), EngineError>(e) && post == pre,
        None => {
            let kept = resolved_writes(v, pre.snap(), slab, values, context);
            &&& r is Ok
            &&& (kept.len() == 0 ==> post == pre)
            &&& post.snap().table.len() == pre.snap().table.len()
            &&& forall|j: int|
                0 <= j < pre.snap().table.len() ==> #[trigger] post.snap().table[j]
                    == if pending_has(kept, j as usize) {
                    Some(pending_val(kept, j as usize))
                } else {
                    pre.snap().table[j]
                }
            &&& post.snap().ids == pre.snap().ids
            &&& post.snap().sort == pre.snap().sort
            &&& post.snap().vis_cols == pre.snap().vis_cols
            &&& post.snap().ranges == pre.snap().ranges
            &&& post.snap().interactive == pre.snap().interactive
            &&& post.edit == pre.edit
            &&& (kept.len() > 0 ==> history_extended(pre, post))
        },
    }
}

/// What removing rows does, exactly: an id that names no live row is
/// reported and nothing moves; a viewer that forbids deletions refuses;
/// otherwise exactly the hook-confirmed rows are cleared, as one undoable
/// action (none: no history entry at all), and removing the edited row
/// closes the edit session.
pub open spec fn remove_rows_post<R, V: RowViewer<R>>(
    v: V,
    pre: DataTable<R>,
    post: DataTable<R>,
    ids: Seq<usize>,
    r: Result<(), EngineError>,
) -> bool {
    if !v.allow_deletions_spec() {
        r == Err::<(), EngineError>(EngineError::NotAllowed) && post == pre
    } else if exists|i: int| 0 <= i < ids.len() && !pre.snap().live(#[trigger] ids[i]) {
        r == Err::<(), EngineError>(EngineError::InvalidRowId) && post == pre
    } else {
        let kept = confirmed_removals(v, pre.snap(), ids);
        &&& r is Ok
        &&& (kept.len() == 0 ==> post == pre)
        &&& post.snap().table.len() == pre.snap().table.len()
        &&& forall|j: int|
            0 <= j < pre.snap().table.len() ==> #[trigger] post.snap().table[j] == if kept.contains(
                j as usize,
            ) {
                None::<R>
            } else {
                pre.snap().table[j]
            }
        &&& post.snap().sort == pre.snap().sort
        &&& post.snap().vis_cols == pre.snap().vis_cols
        &&& post.snap().ranges == pre.snap().ranges
        &&& post.snap().interactive == pre.snap().interactive
        &&& (kept.len() > 0 ==> history_extended(pre, post))
        &&& (pre.edit matches EditState::Editing { row_id, .. } && kept.contains(row_id)
            ==> post.edit is Idle)
    }
}

/// What inserting fresh rows does, exactly: refused when the viewer forbids
/// insertions, the position is out of range, or the arena has no room;
/// otherwise the values are appended to the slot table and their fresh ids
/// spliced into the arena order at `pos`, as one undoable action.
pub open spec fn insert_rows_post<R, V: RowViewer<R>>(
    v: V,
    pre: DataTable<R>,
    post: DataTable<R>,
    pos: usize,
    values: Seq<R>,
    r: Result<(), EngineError>,
) -> bool {
    if !v.allow_insertions_spec() {
        r == Err::<(), EngineError>(EngineError::NotAllowed) && post == pre
    } else if pos > pre.snap().ids.len() {
        r == Err::<(), EngineError>(EngineError::InvalidPosition) && post == pre
    } else if values.len() > usize::MAX - pre.snap().table.len() {
        r == Err::<(), EngineError>(EngineError::CapacityExceeded) && post == pre
    } else {
        &&& r is Ok
        &&& (values.len() == 0 ==> post == pre)
        &&& post.snap().table == pre.snap().table + values.map(|_i: int, x: R| Some(x))
        &&& post.snap().ids.len() == pre.snap().ids.len() + values.len()
        &&& forall|j: int| 0 <= j < pos ==> #[trigger] post.snap().ids[j] == pre.snap().ids[j]
        &&& forall|j: int|
            pos <= j < pos + values.len() ==> #[trigger] post.snap().ids[j] == (
            pre.snap().table.len() + (j - pos)) as usize
        &&& forall|j: int|
            pos + values.len() <= j < post.snap().ids.len() ==> #[trigger] post.snap().ids[j]
                == pre.snap().ids[j - values.len()]
        &&& post.snap().sort == pre.snap().sort
        &&& post.snap().vis_cols == pre.snap().vis_cols
        &&& post.snap().ranges == pre.snap().ranges
        &&& post.snap().interactive == pre.snap().interactive
        &&& post.edit == pre.edit
        &&& (values.len() > 0 ==> history_extended(pre, post))
    }
}

/// What beginning an edit session does, exactly.
pub open spec fn start_edit_post<R, V: RowViewer<R>>(
    v: V,
    pre: DataTable<R>,
    post: DataTable<R>,
    row_id: usize,
    column: usize,
    r: Result<(), EngineError>,
) -> bool {
    if !pre.snap().live(row_id) {
        r == Err::<(), EngineError>(EngineError::InvalidRowId) && post == pre
    } else if column >= pre.num_columns {
        r == Err::<(), EngineError>(EngineError::InvalidColumn) && post == pre
    } else if !v.is_editable_spec(column as int, row_id as int, pre.snap().row(row_id)) {
        r == Err::<(), EngineError>(EngineError::NotAllowed) && post == pre
    } else {
        &&& r is Ok
        &&& post.snap() == pre.snap()
        &&& post.undo == pre.undo
        &&& post.redo == pre.redo
        &&& post.edit == (EditState::Editing {
            row_id,
            column,
            working: v.clone_row_spec(pre.snap().row(row_id)),
            want_focus: true,
        })
    }
}

/// What closing an edit session does, exactly: a hook-confirmed commit
/// writes the working copy's edited column back as one undoable action; a
/// refusal (or no session) changes nothing. The session ends either way.
pub open spec fn commit_edit_post<R, V: RowViewer<R>>(
    v: V,
    pre: DataTable<R>,
    post: DataTable<R>,
    committed: bool,
) -> bool {
    &&& post.edit is Idle
    &&& match pre.edit {
        EditState::Idle => !committed && post == pre,
        EditState::Editing { row_id, column, working, .. } => {
            let base = pre.snap().row(row_id);
            let next = v.set_cell_spec(working, v.clone_row_spec(base), column as int);
            if v.confirm_write_spec(base, next, column as int, CellWriteContext::Edit) {
                &&& committed
                &&& post.snap() == TableSnap {
                    table: pre.snap().table.update(row_id as int, Some(next)),
                    ..pre.snap()
                }
                &&& history_extended(pre, post)
            } else {
                &&& !committed
                &&& post.snap() == pre.snap()
                &&& post.undo == pre.undo
                &&& post.redo == pre.redo
            }
        },
    }
}

/// What one undo does, exactly: the top undo entry's command list is applied
/// (leading back to the state the entry was pushed over), the entry moves,
/// flipped, onto the redo stack, and any open edit session is discarded.
pub open spec fn undo_post<R>(pre: DataTable<R>, post: DataTable<R>, did: bool) -> bool {
    &&& did == (pre.undo@.len() > 0)
    &&& (!did ==> post.snap() == pre.snap() && post.undo == pre.undo && post.redo == pre.redo
        && post.edit == pre.edit)
    &&& (did ==> {
        &&& post.snap() == pre.undo@.last().far@
        &&& post.snap() == apply_cmds(pre.snap(), pre.undo@.last().cmds@)
        &&& post.undo@ == pre.undo@.drop_last()
        &&& post.redo@.len() == pre.redo@.len() + 1
        &&& post.redo@.drop_last() == pre.redo@
        &&& post.edit is Idle
    })
}

/// What one redo does, exactly (the mirror image of `undo_post`).
pub open spec fn redo_post<R>(pre: DataTable<R>, post: DataTable<R>, did: bool) -> bool {
    &&& did == (pre.redo@.len() > 0)
    &&& (!did ==> post.snap() == pre.snap() && post.undo == pre.undo && post.redo == pre.redo
        && post.edit == pre.edit)
    &&& (did ==> {
        &&& post.snap() == pre.redo@.last().far@
        &&& post.snap() == apply_cmds(pre.snap(), pre.redo@.last().cmds@)
        &&& post.redo@ == pre.redo@.drop_last()
        &&& post.undo@.len() == pre.undo@.len() + 1
        &&& post.undo@.drop_last() == pre.undo@
        &&& post.edit is Idle
    })
}

/// The subsequence of `ids` (first occurrences only) whose rows the viewer
/// confirms for deletion against the rows of `s`.
pub open spec fn confirmed_removals<R, V: RowViewer<R>>(
    v: V,
    s: TableSnap<R>,
    ids: Seq<usize>,
) -> Seq<usize>
    decreases ids.len(),
{
    if ids.len() == 0 {
        Seq::empty()
    } else {
        let rest = confirmed_removals(v, s, ids.drop_last());
        let id = ids.last();
        if rest.contains(id) || !v.confirm_deletion_spec(s.row(id)) {
            rest
        } else {
            rest.push(id)
        }
    }
}

/// Every confirmed removal is one of the requested ids, confirmed, live,
/// and listed once.
pub proof fn lemma_confirmed_removals_props<R, V: RowViewer<R>>(
    v: V,
    s: TableSnap<R>,
    ids: Seq<usize>,
)
    ensures
        distinct_seq(confirmed_removals(v, s, ids)),
        forall|i: int|
            0 <= i < confirmed_removals(v, s, ids).len() ==> {
                &&& ids.contains(#[trigger] confirmed_removals(v, s, ids)[i])
                &&& v.confirm_deletion_spec(s.row(confirmed_removals(v, s, ids)[i]))
            },
        forall|id: usize|
            ids.contains(id) && v.confirm_deletion_spec(s.row(id))
                ==> #[trigger] confirmed_removals(v, s, ids).contains(id),
    decreases ids.len(),
{
    if ids.len() == 0 {
    } else {
        lemma_confirmed_removals_props(v, s, ids.drop_last());
        let rest = confirmed_removals(v, s, ids.drop_last());
        let full = confirmed_removals(v, s, ids);
        assert forall|i: int| 0 <= i < full.len() implies {
            &&& ids.contains(#[trigger] full[i])
            &&& v.confirm_deletion_spec(s.row(full[i]))
        } by {
            if i < rest.len() {
                assert(full[i] == rest[i]);
                assert(ids.drop_last().contains(rest[i]));
                let w = choose|w: int| 0 <= w < ids.drop_last().len() && ids.drop_last()[w]
                    == rest[i];
                assert(ids[w] == rest[i]);
            } else {
                assert(full[i] == ids.last());
                assert(ids[ids.len() - 1] == ids.last());
            }
        }
        assert forall|id: usize|
            ids.contains(id) && v.confirm_deletion_spec(s.row(id)) implies #[trigger] full.contains(
            id,
        ) by {
            let w = choose|w: int| 0 <= w < ids.len() && ids[w] == id;
            if w < ids.len() - 1 {
                assert(ids.drop_last()[w] == id);
                assert(ids.drop_last().contains(id));
                assert(rest.contains(id));
                let u = choose|u: int| 0 <= u < rest.len() && rest[u] == id;
                assert(full[u] == id);
            } else {
                if rest.contains(id) {
                    let u = choose|u: int| 0 <= u < rest.len() && rest[u] == id;
                    assert(full[u] == id);
                } else {
                    assert(full.last() == id);
                }
            }
        }
    }
}

/// A list of removals of distinct live rows is applicable in sequence, and
/// its effect is to clear exactly those slots, leaving all others alone.
pub proof fn lemma_remove_list_effect<R>(s: TableSnap<R>, cs: Seq<Command<R>>, ids: Seq<usize>)
    requires
        cs.len() == ids.len(),
        forall|i: int| 0 <= i < cs.len() ==> #[trigger] cs[i] == Command::<R>::RemoveRow(ids[i]),
        distinct_seq(ids),
        forall|i: int| 0 <= i < ids.len() ==> s.live(#[trigger] ids[i]),
        s.table.len() <= usize::MAX,
    ensures
        cmds_wf(s, cs),
        apply_cmds(s, cs).table.len() == s.table.len(),
        forall|j: int|
            0 <= j < s.table.len() ==> #[trigger] apply_cmds(s, cs).table[j] == if ids.contains(
                j as usize,
            ) {
                None
            } else {
                s.table[j]
            },
        apply_cmds(s, cs).sort == s.sort,
        apply_cmds(s, cs).vis_cols == s.vis_cols,
        apply_cmds(s, cs).ranges == s.ranges,
        apply_cmds(s, cs).interactive == s.interactive,
        apply_cmds(s, cs).num_columns == s.num_columns,
    decreases cs.len(),
{
    if cs.len() == 0 {
    } else {
        let id0 = ids.first();
        assert(cs.first() == Command::<R>::RemoveRow(ids[0]));
        let s1 = apply_cmd(s, cs.first());
        assert(s1.table == s.table.update(id0 as int, None::<R>));
        assert forall|i: int| 0 <= i < ids.drop_first().len() implies s1.live(
            #[trigger] ids.drop_first()[i],
        ) by {
            assert(ids.drop_first()[i] == ids[i + 1]);
            assert(ids[i + 1] != id0);
        }
        assert(forall|i: int|
            0 <= i < cs.drop_first().len() ==> #[trigger] cs.drop_first()[i]
                == Command::<R>::RemoveRow(ids.drop_first()[i]));
        assert(distinct_seq(ids.drop_first())) by {
            assert forall|i: int, j: int|
                0 <= i < ids.drop_first().len() && 0 <= j < ids.drop_first().len() && i != j
                implies #[trigger] ids.drop_first()[i] != #[trigger] ids.drop_first()[j] by {
                assert(ids.drop_first()[i] == ids[i + 1]);
                assert(ids.drop_first()[j] == ids[j + 1]);
            }
        }
        lemma_remove_list_effect(s1, cs.drop_first(), ids.drop_first());
        assert forall|j: int|
            0 <= j < s.table.len() implies #[trigger] apply_cmds(s, cs).table[j] == if ids.contains(
            j as usize,
        ) {
            None
        } else {
            s.table[j]
        } by {
            if ids.contains(j as usize) {
                let w = choose|w: int| 0 <= w < ids.len() && ids[w] == j as usize;
                if w == 0 {
                    assert(ids[0] == j as usize);
                    assert(id0 as int == j);
                    assert(s1.table[j] is None);
                    if ids.drop_first().contains(j as usize) {
                    } else {
                        assert(apply_cmds(s1, cs.drop_first()).table[j] == s1.table[j]);
                    }
                } else {
                    assert(ids.drop_first()[w - 1] == j as usize);
                    assert(ids.drop_first().contains(j as usize));
                }
            } else {
                assert(!ids.drop_first().contains(j as usize)) by {
                    if ids.drop_first().contains(j as usize) {
                        let w = choose|w: int|
                            0 <= w < ids.drop_first().len() && ids.drop_first()[w] == j as usize;
                        assert(ids[w + 1] == j as usize);
                    }
                }
                assert(j as usize != id0);
            }
        }
    }
}

impl<R> DataTable<R> {
    /// Remove rows by stable id, as one undoable action. Every id must name
    /// a live row, or nothing happens and the desynchronization is reported.
    /// Each distinct row is first confirmed with the viewer (skipping rows
    /// whose deletion the hook refuses); if every row is refused, the store
    /// and the history are left untouched. Removing the edited row closes
    /// the edit session.
    pub fn remove_rows<V: RowViewer<R>>(&mut self, viewer: &mut V, ids: &Vec<usize>) -> (r: Result<
        (),
        EngineError,
    >)
        requires
            old(self).wf(),
        ensures
            final(self).wf(),
            remove_rows_post(*old(viewer), *old(self), *final(self), ids@, r),
    {
        if !viewer.allow_row_deletions() {
            return Err(EngineError::NotAllowed);
        }
        let n = ids.len();
        let mut i: usize = 0;
        while i < n
            invariant
                n == ids@.len(),
                i <= n,
                *self == *old(self),
                old(self).wf(),
                old(viewer).allow_deletions_spec(),
                forall|j: int| 0 <= j < i ==> old(self).snap().live(#[trigger] ids@[j]),
            decreases n - i,
        {
            if !self.store.contains(ids[i]) {
                proof {
                    assert(!old(self).snap().live(ids@[i as int]));
                }
                return Err(EngineError::InvalidRowId);
            }
            i = i + 1;
        }
        let ghost s0 = self.snap();
        let ghost v0 = *viewer;
        // Confirm each distinct row with the viewer; refusals silently
        // shrink the batch.
        let mut kept: Vec<usize> = Vec::new();
        let mut cmds: Vec<Command<R>> = Vec::new();
        let mut i: usize = 0;
        while i < n
            invariant
                n == ids@.len(),
                i <= n,
                *self == *old(self),
                *viewer == v0,
                old(self).wf(),
                s0 == self.snap(),
                forall|j: int| 0 <= j < n ==> s0.live(#[trigger] ids@[j]),
                kept@ == confirmed_removals(v0, s0, ids@.take(i as int)),
                cmds@.len() == kept@.len(),
                forall|j: int|
                    0 <= j < cmds@.len() ==> #[trigger] cmds@[j] == Command::<R>::RemoveRow(kept@[j]),
            decreases n - i,
        {
            let id = ids[i];
            let already = vec_contains_usize(&kept, id);
            let confirm = if already {
                false
            } else {
                viewer.confirm_row_deletion_by_ui(self.store.get(id))
            };
            proof {
                assert(ids@.take(i + 1).drop_last() =~= ids@.take(i as int));
                assert(ids@.take(i + 1).last() == id);
            }
            if confirm {
                kept.push(id);
                cmds.push(Command::RemoveRow(id));
            }
            i = i + 1;
        }
        proof {
            assert(ids@.take(n as int) =~= ids@);
            lemma_confirmed_removals_props(v0, s0, ids@);
            assert(distinct_seq(kept@));
            assert forall|j: int| 0 <= j < kept@.len() implies s0.live(#[trigger] kept@[j]) by {
                assert(ids@.contains(kept@[j]));
                let w = choose|w: int| 0 <= w < ids@.len() && ids@[w] == kept@[j];
            }
            lemma_remove_list_effect(s0, cmds@, kept@);
        }
        self.push_command(viewer, cmds);
        Ok(())
    }
}

impl<R> DataTable<R> {
    /// Apply one command as an undoable action (a one-command batch).
    fn push_single<V: RowViewer<R>>(&mut self, viewer: &mut V, cmd: Command<R>)
        requires
            old(self).wf(),
            cmd_wf(old(self).snap(), cmd),
        ensures
            final(self).wf(),
            final(self).snap() == apply_cmd(old(self).snap(), cmd),
            final(self).redo@.len() == 0,
            final(self).undo@.len() as int == if old(self).undo@.len() < old(self).max_undo {
                old(self).undo@.len() as int + 1
            } else {
                old(self).max_undo as int
            },
            (old(self).undo@.len() < old(self).max_undo ==> final(self).undo@.drop_last() == old(self).undo@),
            (old(self).undo@.len() >= old(self).max_undo ==> final(self).undo@.drop_last() == old(self).undo@.drop_first()),
            final(self).max_undo == old(self).max_undo,
            final(self).edit == if old(self).edit_threatened_spec(seq![cmd]) {
                EditState::<R>::Idle
            } else {
                old(self).edit
            },
            final(self).visible_rows == old(self).visible_rows,
            final(self).projection_dirty == (old(self).projection_dirty || cmd_dirties(cmd)),
            is_inverse(old(self).snap(), cmd, final(self).undo@.last().cmds@.first()),
            final(self).undo@.last().near@ == final(self).snap(),
            final(self).undo@.last().far@ == old(self).snap(),
    {
        let ghost s0 = self.snap();
        let ghost gcmd = cmd;
        let mut cmds: Vec<Command<R>> = Vec::new();
        cmds.push(cmd);
        proof {
            assert(cmds@.len() == 1);
            assert(cmds@.first() == gcmd);
            assert(cmds@.drop_first() =~= Seq::<Command<R>>::empty());
            assert(cmds_wf(apply_cmd(s0, gcmd), Seq::<Command<R>>::empty()));
            assert(cmds_wf(s0, cmds@));
            assert(apply_cmds(apply_cmd(s0, gcmd), Seq::<Command<R>>::empty()) == apply_cmd(
                s0,
                gcmd,
            ));
            assert(apply_cmds(s0, cmds@) == apply_cmd(s0, gcmd));
            assert(cmds@ =~= seq![gcmd]);
        }
        self.push_command(viewer, cmds);
        proof {
            let fl = self.undo@.last().cmds@;
            assert(is_inverse_list(s0, seq![gcmd], fl));
            assert(is_inverse(s0, seq![gcmd].first(), fl.last()));
            assert(fl.len() == 1);
            assert(fl.last() == fl.first());
        }
    }
}

impl<R> DataTable<R> {
    /// Replace the sort specification, as one undoable command. Every key
    /// must name a real column.
    pub fn set_sort<V: RowViewer<R>>(&mut self, viewer: &mut V, keys: Vec<SortKey>) -> (r: Result<
        (),
        EngineError,
    >)
        requires
            old(self).wf(),
        ensures
            final(self).wf(),
            set_sort_post(*old(self), *final(self), keys@, r),
    {
        let n = keys.len();
        let mut i: usize = 0;
        while i < n
            invariant
                n == keys@.len(),
                i <= n,
                *self == *old(self),
                old(self).wf(),
                forall|j: int| 0 <= j < i ==> (#[trigger] keys@[j]).column < old(self).num_columns,
            decreases n - i,
        {
            if keys[i].column >= self.num_columns {
                proof {
                    assert(keys@[i as int].column >= old(self).num_columns);
                }
                return Err(EngineError::InvalidColumn);
            }
            i = i + 1;
        }
        let ghost s0 = self.snap();
        let ghost gcmd = Command::<R>::SetSort(keys);
        proof {
            assert(cmd_wf(s0, gcmd));
            assert(!self.edit_threatened_spec(seq![gcmd])) by {
                match self.edit {
                    EditState::Idle => {},
                    EditState::Editing { row_id, column, .. } => {
                        assert(seq![gcmd][0] == gcmd);
                    },
                }
            }
        }
        self.push_single(viewer, Command::SetSort(keys));
        Ok(())
    }

    /// Replace the visible-column order, as one undoable command: this is
    /// how columns are hidden, shown and reordered. The list must be
    /// nonempty, name real columns, and name no column twice. Hiding the
    /// edited column closes the edit session.
    pub fn set_visible_columns<V: RowViewer<R>>(&mut self, viewer: &mut V, cols: Vec<usize>) -> (r:
        Result<(), EngineError>)
        requires
            old(self).wf(),
        ensures
            final(self).wf(),
            set_visible_columns_post(*old(self), *final(self), cols@, r),
    {
        if cols.len() == 0 {
            return Err(EngineError::InvalidColumn);
        }
        let n = cols.len();
        let mut i: usize = 0;
        while i < n
            invariant
                n == cols@.len(),
                i <= n,
                *self == *old(self),
                old(self).wf(),
                forall|j: int| 0 <= j < i ==> (#[trigger] cols@[j]) < old(self).num_columns,
                forall|j: int, k: int| 0 <= j < i && 0 <= k < j ==> cols@[j] != cols@[k],
            decreases n - i,
        {
            if cols[i] >= self.num_columns {
                proof {
                    assert(cols@[i as int] >= old(self).num_columns);
                }
                return Err(EngineError::InvalidColumn);
            }
            let mut j: usize = 0;
            while j < i
                invariant
                    n == cols@.len(),
                    i < n,
                    j <= i,
                    *self == *old(self),
                    old(self).wf(),
                    forall|k: int| 0 <= k < j ==> cols@[i as int] != cols@[k],
                decreases i - j,
            {
                if cols[j] == cols[i] {
                    proof {
                        assert(cols@[i as int] == cols@[j as int]);
                    }
                    return Err(EngineError::InvalidColumn);
                }
                j = j + 1;
            }
            i = i + 1;
        }
        proof {
            assert forall|a: int, b: int|
                0 <= a < cols@.len() && 0 <= b < cols@.len() && a != b implies cols@[a]
                != cols@[b] by {
                if a < b {
                } else {
                }
            }
        }
        let ghost s0 = self.snap();
        let ghost gcmd = Command::<R>::SetVisibleColumns(cols);
        proof {
            assert(cmd_wf(s0, gcmd));
            match self.edit {
                EditState::Idle => {},
                EditState::Editing { row_id, column, .. } => {
                    assert(seq![gcmd][0] == gcmd);
                    assert(!list_removes_row(seq![gcmd], row_id)) by {
                        assert forall|j: int| 0 <= j < seq![gcmd].len() implies !(
                        match #[trigger] seq![gcmd][j] {
                            Command::RemoveRow(id2) => id2 == row_id,
                            Command::PopRow(id2) => id2 == row_id,
                            _ => false,
                        }) by {
                            assert(seq![gcmd][j] == gcmd);
                        }
                    }
                },
            }
        }
        self.push_single(viewer, Command::SetVisibleColumns(cols));
        Ok(())
    }

    /// Replace the committed selection (ranges plus interactive cell), as
    /// one undoable command. Each rectangle is normalized so its first
    /// corner is the smaller linear index.
    pub fn set_selection<V: RowViewer<R>>(
        &mut self,
        viewer: &mut V,
        ranges: Vec<VisSelection>,
        interactive: Option<usize>,
    )
        requires
            old(self).wf(),
        ensures
            final(self).wf(),
            set_selection_post(*old(self), *final(self), ranges@, interactive),
    {
        let mut norm: Vec<VisSelection> = Vec::new();
        let n = ranges.len();
        let mut i: usize = 0;
        while i < n
            invariant
                n == ranges@.len(),
                i <= n,
                *self == *old(self),
                old(self).wf(),
                norm@.len() == i,
                forall|j: int|
                    0 <= j < i ==> #[trigger] norm@[j] == (if ranges@[j].0 <= ranges@[j].1 {
                        ranges@[j]
                    } else {
                        VisSelection(ranges@[j].1, ranges@[j].0)
                    }),
                forall|j: int| 0 <= j < i ==> (#[trigger] norm@[j]).0 <= norm@[j].1,
            decreases n - i,
        {
            let r = ranges[i];
            if r.0 <= r.1 {
                norm.push(r);
            } else {
                norm.push(VisSelection(r.1, r.0));
            }
            i = i + 1;
        }
        let ghost s0 = self.snap();
        let ghost normseq = norm@;
        let ghost gcmd = Command::<R>::SetSelection(SelectionState { ranges: norm, interactive });
        proof {
            assert(cmd_wf(s0, gcmd));
            assert(!self.edit_threatened_spec(seq![gcmd])) by {
                match self.edit {
                    EditState::Idle => {},
                    EditState::Editing { row_id, column, .. } => {
                        assert(seq![gcmd][0] == gcmd);
                    },
                }
            }
        }
        self.push_single(viewer, Command::SetSelection(SelectionState { ranges: norm, interactive }));
    }
}

/// A list of fresh insertions at consecutive positions is applicable in
/// sequence; it appends the values to the slot table and splices the fresh
/// ids into the arena order at `pos`.
pub proof fn lemma_insert_list_effect<R>(
    s: TableSnap<R>,
    cs: Seq<Command<R>>,
    pos: int,
    values: Seq<R>,
)
    requires
        cs.len() == values.len(),
        forall|i: int|
            0 <= i < cs.len() ==> #[trigger] cs[i] == Command::<R>::InsertRow(
                (pos + i) as usize,
                values[i],
            ),
        0 <= pos <= s.ids.len(),
        s.ids.len() <= s.table.len(),
        s.table.len() + values.len() <= usize::MAX,
    ensures
        cmds_wf(s, cs),
        apply_cmds(s, cs).table == s.table + values.map(|_i: int, v: R| Some(v)),
        apply_cmds(s, cs).ids.len() == s.ids.len() + values.len(),
        forall|j: int|
            0 <= j < pos ==> #[trigger] apply_cmds(s, cs).ids[j] == s.ids[j],
        forall|j: int|
            pos <= j < pos + values.len() ==> #[trigger] apply_cmds(s, cs).ids[j] == (s.table.len()
                + (j - pos)) as usize,
        forall|j: int|
            pos + values.len() <= j < s.ids.len() + values.len() ==> #[trigger] apply_cmds(
                s,
                cs,
            ).ids[j] == s.ids[j - values.len()],
        apply_cmds(s, cs).sort == s.sort,
        apply_cmds(s, cs).vis_cols == s.vis_cols,
        apply_cmds(s, cs).ranges == s.ranges,
        apply_cmds(s, cs).interactive == s.interactive,
        apply_cmds(s, cs).num_columns == s.num_columns,
    decreases cs.len(),
{
    if cs.len() == 0 {
        assert(apply_cmds(s, cs).table =~= s.table + values.map(|_i: int, v: R| Some(v)));
    } else {
        assert(cs.first() == Command::<R>::InsertRow(pos as usize, values[0]));
        let s1 = apply_cmd(s, cs.first());
        assert(s1.table == s.table.push(Some(values[0])));
        assert(s1.ids == s.ids.insert(pos, (s.table.len() as usize)));
        assert(forall|i: int|
            0 <= i < cs.drop_first().len() ==> #[trigger] cs.drop_first()[i]
                == Command::<R>::InsertRow(((pos + 1) + i) as usize, values.drop_first()[i]));
        lemma_insert_list_effect(s1, cs.drop_first(), pos + 1, values.drop_first());
        let f = apply_cmds(s, cs);
        assert(f == apply_cmds(s1, cs.drop_first()));
        assert(f.table =~= s.table + values.map(|_i: int, v: R| Some(v))) by {
            assert(f.table == s1.table + values.drop_first().map(|_i: int, v: R| Some(v)));
            assert forall|j: int| 0 <= j < f.table.len() implies f.table[j] == (s.table
                + values.map(|_i: int, v: R| Some(v)))[j] by {
                if j < s.table.len() {
                } else if j == s.table.len() {
                    assert(f.table[j] == s1.table[j]);
                } else {
                    assert(f.table[j] == values.drop_first().map(|_i: int, v: R| Some(v))[j
                        - s1.table.len()]);
                    assert(values.map(|_i: int, v: R| Some(v))[j - s.table.len()] == Some(
                        values[j - s.table.len()],
                    ));
                }
            }
        }
        assert forall|j: int| pos <= j < pos + values.len() implies #[trigger] f.ids[j] == (
        s.table.len() + (j - pos)) as usize by {
            if j == pos {
                assert(f.ids[j] == s1.ids[j]);
                assert(s1.ids[pos] == (s.table.len() as usize));
            } else {
                assert(f.ids[j] == (s1.table.len() + (j - (pos + 1))) as usize);
            }
        }
        assert forall|j: int| 0 <= j < pos implies #[trigger] f.ids[j] == s.ids[j] by {
            assert(f.ids[j] == s1.ids[j]);
        }
        assert forall|j: int|
            pos + values.len() <= j < s.ids.len() + values.len() implies #[trigger] f.ids[j]
            == s.ids[j - values.len()] by {
            assert(f.ids[j] == s1.ids[j - values.drop_first().len()]);
            assert(s1.ids[j - values.len() + 1] == s.ids[j - values.len()]);
        }
    }
}

impl<R> DataTable<R> {
    /// Insert `values` as fresh rows before arena position `pos`, in order,
    /// as one undoable action. Fails if the viewer forbids insertions or the
    /// position is out of range; an empty list is a no-op.
    pub fn insert_rows<V: RowViewer<R>>(
        &mut self,
        viewer: &mut V,
        pos: usize,
        values: Vec<R>,
    ) -> (r: Result<(), EngineError>)
        requires
            old(self).wf(),
        ensures
            final(self).wf(),
            insert_rows_post(*old(viewer), *old(self), *final(self), pos, values@, r),
    {
        if !viewer.allow_row_insertions() {
            return Err(EngineError::NotAllowed);
        }
        if pos > self.store.len() {
            return Err(EngineError::InvalidPosition);
        }
        if values.len() > usize::MAX - self.store.next_id() {
            return Err(EngineError::CapacityExceeded);
        }
        let ghost s0 = self.snap();
        let ghost vals = values@;
        proof {
            lemma_ids_bounded(s0);
        }
        let k = values.len();
        let mut cmds: Vec<Command<R>> = Vec::new();
        let mut values = values;
        let mut i: usize = 0;
        while values.len() > 0
            invariant
                *self == *old(self),
                old(self).wf(),
                s0 == self.snap(),
                i + values@.len() == k,
                k == vals.len(),
                pos + k <= usize::MAX,
                values@ =~= vals.skip(i as int),
                cmds@.len() == i,
                forall|j: int|
                    0 <= j < i ==> #[trigger] cmds@[j] == Command::<R>::InsertRow(
                        (pos + j) as usize,
                        vals[j],
                    ),
            decreases values.len(),
        {
            let v = values.remove(0);
            proof {
                assert(v == vals[i as int]);
                assert(values@ =~= vals.skip(i as int + 1));
            }
            cmds.push(Command::InsertRow(pos + i, v));
            i = i + 1;
        }
        proof {
            assert(self.snap().ids.len() <= self.snap().table.len()) by {
                crate::engine::lemma_ids_bounded(self.snap());
            }
            lemma_insert_list_effect(s0, cmds@, pos as int, vals);
            match self.edit {
                EditState::Idle => {},
                EditState::Editing { row_id, column, .. } => {
                    assert(!self.edit_threatened_spec(cmds@)) by {
                        assert forall|j: int| 0 <= j < cmds@.len() implies !(
                        match #[trigger] cmds@[j] {
                            Command::RemoveRow(id2) => id2 == row_id,
                            Command::PopRow(id2) => id2 == row_id,
                            _ => false,
                        }) && !(match cmds@[j] {
                            Command::SetVisibleColumns(c2) => !c2@.contains(column),
                            _ => false,
                        }) by {
                            assert(cmds@[j] == Command::<R>::InsertRow((pos + j) as usize, vals[j]));
                        }
                    }
                },
            }
        }
        self.push_command(viewer, cmds);
        Ok(())
    }
}

/// In a well-formed snapshot there are at least as many slots as live rows.
pub proof fn lemma_ids_bounded<R>(s: TableSnap<R>)
    requires
        s.wf(),
    ensures
        s.ids.len() <= s.table.len(),
{
    lemma_distinct_bound(s.ids, s.table.len() as int);
}

/// A duplicate-free sequence of machine integers below `bound` has at most
/// `bound` elements (pigeonhole, via set cardinality).
pub proof fn lemma_distinct_bound(s: Seq<usize>, bound: int)
    requires
        distinct_seq(s),
        forall|i: int| 0 <= i < s.len() ==> (#[trigger] s[i]) < bound,
        0 <= bound,
    ensures
        s.len() <= bound,
{
    let t = s.map_values(|x: usize| x as int);
    assert(t.no_duplicates()) by {
        assert forall|i: int, j: int|
            0 <= i < t.len() && 0 <= j < t.len() && i != j implies t[i] != t[j] by {
            assert(t[i] == s[i] as int);
            assert(t[j] == s[j] as int);
        }
    }
    t.unique_seq_to_set();
    vstd::set_lib::lemma_int_range(0, bound);
    assert(t.to_set().subset_of(vstd::set_lib::set_int_range(0, bound))) by {
        assert forall|e: int| t.to_set().contains(e) implies vstd::set_lib::set_int_range(
            0,
            bound,
        ).contains(e) by {
            assert(t.contains(e));
            let w = choose|w: int| 0 <= w < t.len() && t[w] == e;
            assert(t[w] == s[w] as int);
        }
    }
    vstd::set_lib::lemma_len_subset(t.to_set(), vstd::set_lib::set_int_range(0, bound));
}

/// Whether the pending-write list has an entry for row `id`.
pub open spec fn pending_has<R>(p: Seq<(usize, R)>, id: usize) -> bool {
    exists|i: int| 0 <= i < p.len() && (#[trigger] p[i]).0 == id
}

/// The index of row `id` in the pending-write list.
pub open spec fn pending_idx<R>(p: Seq<(usize, R)>, id: usize) -> int {
    choose|i: int| 0 <= i < p.len() && (#[trigger] p[i]).0 == id
}

/// The pending value for row `id`.
pub open spec fn pending_val<R>(p: Seq<(usize, R)>, id: usize) -> R {
    p[pending_idx(p, id)].1
}

/// Replace or append the pending value for row `id`.
pub open spec fn pending_update<R>(p: Seq<(usize, R)>, id: usize, v: R) -> Seq<(usize, R)> {
    if pending_has(p, id) {
        p.update(pending_idx(p, id), (id, v))
    } else {
        p.push((id, v))
    }
}

/// The batched cell writes that survive resolution, as one final value per
/// written row. Writes are resolved in order against the already-pending
/// value of their row (or the stored row), and the viewer's
/// write-confirmation hook silently drops refused writes.
pub open spec fn resolved_writes<R, V: RowViewer<R>>(
    v: V,
    s: TableSnap<R>,
    slab: Seq<R>,
    values: Seq<(usize, usize, usize)>,
    context: CellWriteContext,
) -> Seq<(usize, R)>
    decreases values.len(),
{
    if values.len() == 0 {
        Seq::empty()
    } else {
        let pending = resolved_writes(v, s, slab, values.drop_last(), context);
        let t = values.last();
        let base = if pending_has(pending, t.0) {
            pending_val(pending, t.0)
        } else {
            s.row(t.0)
        };
        let next = v.set_cell_spec(slab[t.2 as int], v.clone_row_spec(base), t.1 as int);
        if v.confirm_write_spec(base, next, t.1 as int, context) {
            pending_update(pending, t.0, next)
        } else {
            pending
        }
    }
}

/// Pending-write lists keep one entry per row, and every entry's row comes
/// from the requested triples.
pub proof fn lemma_resolved_writes_props<R, V: RowViewer<R>>(
    v: V,
    s: TableSnap<R>,
    slab: Seq<R>,
    values: Seq<(usize, usize, usize)>,
    context: CellWriteContext,
)
    ensures
        forall|i: int, j: int|
            0 <= i < resolved_writes(v, s, slab, values, context).len() && 0 <= j
                < resolved_writes(v, s, slab, values, context).len() && i != j
                ==> (#[trigger] resolved_writes(v, s, slab, values, context)[i]).0 != (
            #[trigger] resolved_writes(v, s, slab, values, context)[j]).0,
        forall|i: int|
            0 <= i < resolved_writes(v, s, slab, values, context).len() ==> exists|w: int|
                0 <= w < values.len() && (#[trigger] values[w]).0 == (
                #[trigger] resolved_writes(v, s, slab, values, context)[i]).0,
    decreases values.len(),
{
    if values.len() == 0 {
    } else {
        lemma_resolved_writes_props(v, s, slab, values.drop_last(), context);
        let pending = resolved_writes(v, s, slab, values.drop_last(), context);
        let full = resolved_writes(v, s, slab, values, context);
        let t = values.last();
        assert forall|i: int|
            0 <= i < pending.len() implies exists|w: int|
            0 <= w < values.len() && (#[trigger] values[w]).0 == (#[trigger] pending[i]).0 by {
            let w = choose|w: int|
                0 <= w < values.drop_last().len() && (#[trigger] values.drop_last()[w]).0
                    == pending[i].0;
            assert(values[w] == values.drop_last()[w]);
        }
        let base = if pending_has(pending, t.0) {
            pending_val(pending, t.0)
        } else {
            s.row(t.0)
        };
        let next = v.set_cell_spec(slab[t.2 as int], v.clone_row_spec(base), t.1 as int);
        if v.confirm_write_spec(base, next, t.1 as int, context) {
            if pending_has(pending, t.0) {
                let k = pending_idx(pending, t.0);
                assert(0 <= k < pending.len() && pending[k].0 == t.0);
                assert(full == pending.update(k, (t.0, next)));
                assert forall|i: int, j: int|
                    0 <= i < full.len() && 0 <= j < full.len() && i != j implies (
                #[trigger] full[i]).0 != (#[trigger] full[j]).0 by {
                    if i != k && j != k {
                        assert(full[i] == pending[i]);
                        assert(full[j] == pending[j]);
                    } else if i == k {
                        assert(full[j] == pending[j]);
                        assert(pending[j].0 != pending[k].0);
                    } else {
                        assert(full[i] == pending[i]);
                        assert(pending[i].0 != pending[k].0);
                    }
                }
                assert forall|i: int|
                    0 <= i < full.len() implies exists|w: int|
                    0 <= w < values.len() && (#[trigger] values[w]).0 == (
                #[trigger] full[i]).0 by {
                    if i == k {
                        assert(values[values.len() - 1].0 == full[i].0);
                    } else {
                        assert(full[i] == pending[i]);
                    }
                }
            } else {
                assert(full == pending.push((t.0, next)));
                assert forall|i: int, j: int|
                    0 <= i < full.len() && 0 <= j < full.len() && i != j implies (
                #[trigger] full[i]).0 != (#[trigger] full[j]).0 by {
                    if i < pending.len() && j < pending.len() {
                        assert(full[i] == pending[i]);
                        assert(full[j] == pending[j]);
                    } else if i < pending.len() {
                        assert(full[j] == (t.0, next));
                        assert(!(exists|w: int|
                            0 <= w < pending.len() && (#[trigger] pending[w]).0 == t.0));
                        assert(full[i] == pending[i]);
                    } else {
                        assert(full[i] == (t.0, next));
                        assert(full[j] == pending[j]);
                    }
                }
                assert forall|i: int|
                    0 <= i < full.len() implies exists|w: int|
                    0 <= w < values.len() && (#[trigger] values[w]).0 == (
                #[trigger] full[i]).0 by {
                    if i < pending.len() {
                        assert(full[i] == pending[i]);
                    } else {
                        assert(values[values.len() - 1].0 == full[i].0);
                    }
                }
            }
        }
    }
}

/// A list of row replacements of distinct live rows is applicable in
/// sequence, and its effect is to set exactly those rows to their new
/// values, leaving all others alone.
pub proof fn lemma_set_list_effect<R>(s: TableSnap<R>, cs: Seq<Command<R>>, pairs: Seq<(usize, R)>)
    requires
        cs.len() == pairs.len(),
        forall|i: int|
            0 <= i < cs.len() ==> #[trigger] cs[i] == Command::<R>::SetRowValue(
                pairs[i].0,
                pairs[i].1,
            ),
        forall|i: int, j: int|
            0 <= i < pairs.len() && 0 <= j < pairs.len() && i != j ==> (#[trigger] pairs[i]).0 != (
            #[trigger] pairs[j]).0,
        forall|i: int| 0 <= i < pairs.len() ==> s.live((#[trigger] pairs[i]).0),
        s.table.len() <= usize::MAX,
    ensures
        cmds_wf(s, cs),
        apply_cmds(s, cs).table.len() == s.table.len(),
        forall|j: int|
            0 <= j < s.table.len() ==> #[trigger] apply_cmds(s, cs).table[j] == if pending_has(
                pairs,
                j as usize,
            ) {
                Some(pending_val(pairs, j as usize))
            } else {
                s.table[j]
            },
        apply_cmds(s, cs).ids == s.ids,
        apply_cmds(s, cs).sort == s.sort,
        apply_cmds(s, cs).vis_cols == s.vis_cols,
        apply_cmds(s, cs).ranges == s.ranges,
        apply_cmds(s, cs).interactive == s.interactive,
        apply_cmds(s, cs).num_columns == s.num_columns,
    decreases cs.len(),
{
    if cs.len() == 0 {
    } else {
        let p0 = pairs.first();
        assert(cs.first() == Command::<R>::SetRowValue(pairs[0].0, pairs[0].1));
        let s1 = apply_cmd(s, cs.first());
        assert(s1.table == s.table.update(p0.0 as int, Some(p0.1)));
        assert forall|i: int| 0 <= i < pairs.drop_first().len() implies s1.live(
            (#[trigger] pairs.drop_first()[i]).0,
        ) by {
            assert(pairs.drop_first()[i] == pairs[i + 1]);
        }
        assert(forall|i: int|
            0 <= i < cs.drop_first().len() ==> #[trigger] cs.drop_first()[i]
                == Command::<R>::SetRowValue(pairs.drop_first()[i].0, pairs.drop_first()[i].1));
        assert(forall|i: int, j: int|
            0 <= i < pairs.drop_first().len() && 0 <= j < pairs.drop_first().len() && i != j
                ==> (#[trigger] pairs.drop_first()[i]).0 != (#[trigger] pairs.drop_first()[j]).0);
        lemma_set_list_effect(s1, cs.drop_first(), pairs.drop_first());
        let rest = pairs.drop_first();
        assert forall|j: int|
            0 <= j < s.table.len() implies #[trigger] apply_cmds(s, cs).table[j] == if pending_has(
            pairs,
            j as usize,
        ) {
            Some(pending_val(pairs, j as usize))
        } else {
            s.table[j]
        } by {
            if pending_has(pairs, j as usize) {
                let k = pending_idx(pairs, j as usize);
                assert(0 <= k < pairs.len() && pairs[k].0 == j as usize);
                if k == 0 {
                    assert(!pending_has(rest, j as usize)) by {
                        if pending_has(rest, j as usize) {
                            let w = pending_idx(rest, j as usize);
                            assert(rest[w] == pairs[w + 1]);
                            assert(pairs[w + 1].0 != pairs[0].0);
                        }
                    }
                    assert(s1.table[j] == Some(p0.1));
                    assert(apply_cmds(s, cs).table[j] == s1.table[j]);
                    assert(pending_val(pairs, j as usize) == pairs[k].1);
                } else {
                    assert(rest[k - 1] == pairs[k]);
                    assert(pending_has(rest, j as usize));
                    let w = pending_idx(rest, j as usize);
                    assert(0 <= w < rest.len() && rest[w].0 == j as usize);
                    assert(rest[w] == pairs[w + 1]);
                    assert(w + 1 == k);
                    assert(pending_val(rest, j as usize) == pending_val(pairs, j as usize));
                }
            } else {
                assert(!pending_has(rest, j as usize)) by {
                    if pending_has(rest, j as usize) {
                        let w = pending_idx(rest, j as usize);
                        assert(rest[w] == pairs[w + 1]);
                    }
                }
                assert(j as usize != p0.0) by {
                    assert(pairs[0].0 == p0.0);
                }
            }
        }
    }
}

/// The first integration error in a batched cell write, if any: an entry
/// whose row id is dead, whose column is out of range, or whose slab index
/// is out of range.
pub open spec fn first_write_error<R>(
    s: TableSnap<R>,
    slab: Seq<R>,
    values: Seq<(usize, usize, usize)>,
) -> Option<EngineError>
    decreases values.len(),
{
    if values.len() == 0 {
        None
    } else {
        let t = values.first();
        if !s.live(t.0) {
            Some(EngineError::InvalidRowId)
        } else if t.1 >= s.num_columns {
            Some(EngineError::InvalidColumn)
        } else if t.2 >= slab.len() {
            Some(EngineError::InvalidSlabIndex)
        } else {
            first_write_error(s, slab, values.drop_first())
        }
    }
}

impl<R> DataTable<R> {
    /// Look up the pending value for row `id`.
    fn find_pending<'a>(pending: &'a Vec<(usize, R)>, id: usize) -> (r: Option<&'a R>)
        requires
            forall|i: int, j: int|
                0 <= i < pending@.len() && 0 <= j < pending@.len() && i != j
                    ==> (#[trigger] pending@[i]).0 != (#[trigger] pending@[j]).0,
        ensures
            pending_has(pending@, id) ==> r == Some(&pending_val(pending@, id)),
            !pending_has(pending@, id) ==> r is None,
    {
        let n = pending.len();
        let mut i: usize = 0;
        while i < n
            invariant
                n == pending@.len(),
                i <= n,
                forall|k: int, j: int|
                    0 <= k < pending@.len() && 0 <= j < pending@.len() && k != j
                        ==> (#[trigger] pending@[k]).0 != (#[trigger] pending@[j]).0,
                forall|k: int| 0 <= k < i ==> (#[trigger] pending@[k]).0 != id,
            decreases n - i,
        {
            if pending[i].0 == id {
                proof {
                    assert(pending_has(pending@, id)) by {
                        assert(pending@[i as int].0 == id);
                    }
                    let k = pending_idx(pending@, id);
                    assert(0 <= k < pending@.len() && pending@[k].0 == id);
                    assert(k == i as int);
                }
                return Some(&pending[i].1);
            }
            i = i + 1;
        }
        proof {
            if pending_has(pending@, id) {
                let k = pending_idx(pending@, id);
                assert(0 <= k < pending@.len() && pending@[k].0 == id);
            }
        }
        None
    }

    /// Apply a batched cell write, as one undoable action. Each entry of
    /// `values` is (row id, column, slab index): the named column of the
    /// slab row is copied onto the target row. Writes are resolved in order;
    /// for each one the viewer's write-confirmation hook is consulted and
    /// refused writes are silently dropped, so the logged command reflects
    /// only the writes that actually applied. If every write is refused (or
    /// the batch is empty) nothing changes and no history entry is made.
    pub fn set_cells<V: RowViewer<R>>(
        &mut self,
        viewer: &mut V,
        slab: &Vec<R>,
        values: &Vec<(usize, usize, usize)>,
        context: CellWriteContext,
    ) -> (r: Result<(), EngineError>)
        requires
            old(self).wf(),
        ensures
            final(self).wf(),
            set_cells_post(*old(viewer), *old(self), *final(self), slab@, values@, context, r),
    {
        let ghost s0 = self.snap();
        let ghost v0 = *viewer;
        proof {
            assert(values@.skip(0) =~= values@);
        }
        let n = values.len();
        let mut i: usize = 0;
        while i < n
            invariant
                n == values@.len(),
                i <= n,
                *self == *old(self),
                old(self).wf(),
                s0 == self.snap(),
                first_write_error(s0, slab@, values@) == first_write_error(
                    s0,
                    slab@,
                    values@.skip(i as int),
                ),
                forall|j: int|
                    0 <= j < i ==> {
                        &&& s0.live((#[trigger] values@[j]).0)
                        &&& values@[j].1 < s0.num_columns
                        &&& values@[j].2 < slab@.len()
                    },
            decreases n - i,
        {
            let t = values[i];
            proof {
                assert(values@.skip(i as int).first() == values@[i as int]);
                assert(values@.skip(i as int).drop_first() =~= values@.skip(i as int + 1));
            }
            if !self.store.contains(t.0) {
                return Err(EngineError::InvalidRowId);
            }
            if t.1 >= self.num_columns {
                return Err(EngineError::InvalidColumn);
            }
            if t.2 >= slab.len() {
                return Err(EngineError::InvalidSlabIndex);
            }
            i = i + 1;
        }
        proof {
            assert(values@.skip(n as int) =~= Seq::<(usize, usize, usize)>::empty());
        }
        // Resolve the writes in order against the pending values.
        let mut pending: Vec<(usize, R)> = Vec::new();
        let mut i: usize = 0;
        while i < n
            invariant
                n == values@.len(),
                i <= n,
                *self == *old(self),
                *viewer == v0,
                old(self).wf(),
                s0 == self.snap(),
                forall|j: int|
                    0 <= j < n ==> {
                        &&& s0.live((#[trigger] values@[j]).0)
                        &&& values@[j].1 < s0.num_columns
                        &&& values@[j].2 < slab@.len()
                    },
                pending@ == resolved_writes(v0, s0, slab@, values@.take(i as int), context),
                forall|k: int, j: int|
                    0 <= k < pending@.len() && 0 <= j < pending@.len() && k != j
                        ==> (#[trigger] pending@[k]).0 != (#[trigger] pending@[j]).0,
                forall|k: int| 0 <= k < pending@.len() ==> s0.live((#[trigger] pending@[k]).0),
            decreases n - i,
        {
            let t = values[i];
            let ghost pend_pre = pending@;
            proof {
                assert(values@.take(i + 1).drop_last() =~= values@.take(i as int));
                assert(values@.take(i + 1).last() == t);
            }
            let mut next = match Self::find_pending(&pending, t.0) {
                Some(base) => viewer.clone_row(base),
                None => viewer.clone_row(self.store.get(t.0)),
            };
            viewer.set_cell_value(&slab[t.2], &mut next, t.1);
            let ghost base_spec = if pending_has(pend_pre, t.0) {
                pending_val(pend_pre, t.0)
            } else {
                s0.row(t.0)
            };
            let confirmed = match Self::find_pending(&pending, t.0) {
                Some(base) => viewer.confirm_cell_write_by_ui(base, &next, t.1, context),
                None => viewer.confirm_cell_write_by_ui(self.store.get(t.0), &next, t.1, context),
            };
            if confirmed {
                // Replace the pending entry for this row, or append one.
                let m = pending.len();
                let mut k: usize = 0;
                let mut found = false;
                while k < m && !found
                    invariant
                        m == pending@.len(),
                        k <= m,
                        pending@ == pend_pre,
                        !found ==> forall|j: int| 0 <= j < k ==> (#[trigger] pending@[j]).0 != t.0,
                        found ==> k < m && pending@[k as int].0 == t.0,
                    decreases m - k + if found {
                        0int
                    } else {
                        1int
                    },
                {
                    if pending[k].0 == t.0 {
                        found = true;
                    } else {
                        k = k + 1;
                    }
                }
                if found {
                    proof {
                        assert(pending_has(pend_pre, t.0)) by {
                            assert(pend_pre[k as int].0 == t.0);
                        }
                        let w = pending_idx(pend_pre, t.0);
                        assert(0 <= w < pend_pre.len() && pend_pre[w].0 == t.0);
                        assert(w == k as int);
                    }
                    pending[k] = (t.0, next);
                } else {
                    proof {
                        if pending_has(pend_pre, t.0) {
                            let w = pending_idx(pend_pre, t.0);
                            assert(0 <= w < pend_pre.len() && pend_pre[w].0 == t.0);
                        }
                    }
                    pending.push((t.0, next));
                }
                proof {
                    assert(pending@ == pending_update(pend_pre, t.0, v0.set_cell_spec(
                        slab@[t.2 as int],
                        v0.clone_row_spec(base_spec),
                        t.1 as int,
                    )));
                    assert(pending@ == resolved_writes(v0, s0, slab@, values@.take(i + 1), context));
                    lemma_resolved_writes_props(v0, s0, slab@, values@.take(i + 1), context);
                    assert forall|w: int| 0 <= w < pending@.len() implies s0.live(
                        (#[trigger] pending@[w]).0,
                    ) by {
                        let u = choose|u: int|
                            0 <= u < values@.take(i + 1).len() && (#[trigger] values@.take(
                                i + 1,
                            )[u]).0 == pending@[w].0;
                        assert(values@.take(i + 1)[u] == values@[u]);
                    }
                }
            }
            proof {
                if !confirmed {
                    assert(pending@ == resolved_writes(v0, s0, slab@, values@.take(i + 1), context));
                }
            }
            i = i + 1;
        }
        proof {
            assert(values@.take(n as int) =~= values@);
        }
        // Turn the surviving writes into one undoable command list.
        let ghost kept = pending@;
        let mut cmds: Vec<Command<R>> = Vec::new();
        let mut pending = pending;
        let ghost mut done: int = 0;
        while pending.len() > 0
            invariant
                0 <= done <= kept.len(),
                pending@ =~= kept.skip(done),
                cmds@.len() == done,
                forall|j: int|
                    0 <= j < done ==> #[trigger] cmds@[j] == Command::<R>::SetRowValue(
                        kept[j].0,
                        kept[j].1,
                    ),
            decreases pending.len(),
        {
            let (id, v) = pending.remove(0);
            proof {
                assert((id, v) == kept[done]);
                assert(pending@ =~= kept.skip(done + 1));
            }
            cmds.push(Command::SetRowValue(id, v));
            proof {
                done = done + 1;
            }
        }
        proof {
            lemma_set_list_effect(s0, cmds@, kept);
            match self.edit {
                EditState::Idle => {},
                EditState::Editing { row_id, column, .. } => {
                    assert(!self.edit_threatened_spec(cmds@)) by {
                        assert forall|j: int| 0 <= j < cmds@.len() implies !(
                        match #[trigger] cmds@[j] {
                            Command::RemoveRow(id2) => id2 == row_id,
                            Command::PopRow(id2) => id2 == row_id,
                            _ => false,
                        }) && !(match cmds@[j] {
                            Command::SetVisibleColumns(c2) => !c2@.contains(column),
                            _ => false,
                        }) by {
                            assert(cmds@[j] == Command::<R>::SetRowValue(kept[j].0, kept[j].1));
                        }
                    }
                },
            }
        }
        self.push_command(viewer, cmds);
        Ok(())
    }
}

impl<R> DataTable<R> {
    /// Replace an entire row value, as one undoable command, without
    /// consulting the write-confirmation hook (programmatic write).
    pub fn set_row_value<V: RowViewer<R>>(&mut self, viewer: &mut V, id: usize, value: R) -> (r:
        Result<(), EngineError>)
        requires
            old(self).wf(),
        ensures
            final(self).wf(),
            set_row_value_post(*old(self), *final(self), id, value, r),
    {
        if !self.store.contains(id) {
            return Err(EngineError::InvalidRowId);
        }
        let ghost s0 = self.snap();
        let ghost gcmd = Command::<R>::SetRowValue(id, value);
        proof {
            assert(cmd_wf(s0, gcmd));
            assert(!self.edit_threatened_spec(seq![gcmd])) by {
                match self.edit {
                    EditState::Idle => {},
                    EditState::Editing { row_id, column, .. } => {
                        assert(seq![gcmd][0] == gcmd);
                    },
                }
            }
        }
        self.push_single(viewer, Command::SetRowValue(id, value));
        Ok(())
    }

    /// Begin an edit session on one cell: take a detached working copy of
    /// the row (so partial edits do not touch the store until commit) and
    /// mark that focus should be claimed. Fails on a dead row, an out-of-
    /// range column, or a cell the viewer does not let be edited.
    pub fn start_edit<V: RowViewer<R>>(&mut self, viewer: &mut V, row_id: usize, column: usize) -> (
        r: Result<(), EngineError>)
        requires
            old(self).wf(),
        ensures
            final(self).wf(),
            start_edit_post(*old(viewer), *old(self), *final(self), row_id, column, r),
    {
        if !self.store.contains(row_id) {
            return Err(EngineError::InvalidRowId);
        }
        if column >= self.num_columns {
            return Err(EngineError::InvalidColumn);
        }
        if !viewer.is_editable_cell(column, row_id, self.store.get(row_id)) {
            return Err(EngineError::NotAllowed);
        }
        let working = viewer.clone_row(self.store.get(row_id));
        self.edit = EditState::Editing { row_id, column, working, want_focus: true };
        Ok(())
    }

    /// The cell being edited, if any, as (row id, column).
    pub fn editing_cell(&self) -> (r: Option<(usize, usize)>)
        ensures
            match self.edit {
                EditState::Idle => r is None,
                EditState::Editing { row_id, column, .. } => r == Some((row_id, column)),
            },
    {
        match &self.edit {
            EditState::Idle => None,
            EditState::Editing { row_id, column, .. } => Some((*row_id, *column)),
        }
    }

    /// The detached working copy of the row being edited, if any.
    pub fn working_row(&self) -> (r: Option<&R>)
        ensures
            match self.edit {
                EditState::Idle => r is None,
                EditState::Editing { working, .. } => r == Some(&working),
            },
    {
        match &self.edit {
            EditState::Idle => None,
            EditState::Editing { working, .. } => Some(working),
        }
    }

    /// Replace the detached working copy (the host's editor hands back the
    /// partially edited row). No store mutation.
    pub fn set_working_row(&mut self, value: R) -> (r: Result<(), EngineError>)
        requires
            old(self).wf(),
        ensures
            final(self).wf(),
            old(self).edit is Idle ==> r == Err::<(), EngineError>(EngineError::NotAllowed)
                && *final(self) == *old(self),
            old(self).edit matches EditState::Editing { row_id, column, .. } ==> {
                &&& r is Ok
                &&& final(self).snap() == old(self).snap()
                &&& final(self).undo == old(self).undo
                &&& final(self).redo == old(self).redo
                &&& final(self).edit == (EditState::Editing {
                    row_id,
                    column,
                    working: value,
                    want_focus: false,
                })
            },
    {
        match &self.edit {
            EditState::Idle => Err(EngineError::NotAllowed),
            EditState::Editing { row_id, column, .. } => {
                let row_id = *row_id;
                let column = *column;
                self.edit = EditState::Editing { row_id, column, working: value, want_focus: false };
                Ok(())
            },
        }
    }

    /// Close the edit session by writing the working copy's edited column
    /// back through the viewer (one undoable command), if the viewer's
    /// write-confirmation hook accepts the write; a refusal discards the
    /// edit silently. Either way the session ends. Returns whether a write
    /// was applied.
    pub fn commit_edit<V: RowViewer<R>>(&mut self, viewer: &mut V) -> (committed: bool)
        requires
            old(self).wf(),
        ensures
            final(self).wf(),
            commit_edit_post(*old(viewer), *old(self), *final(self), committed),
    {
        let mut edit = EditState::Idle;
        core::mem::swap(&mut edit, &mut self.edit);
        match edit {
            EditState::Idle => false,
            EditState::Editing { row_id, column, working, .. } => {
                let base = self.store.get(row_id);
                let mut next = viewer.clone_row(base);
                viewer.set_cell_value(&working, &mut next, column);
                if viewer.confirm_cell_write_by_ui(base, &next, column, CellWriteContext::Edit) {
                    let ghost s0 = self.snap();
                    let ghost gcmd = Command::<R>::SetRowValue(row_id, next);
                    proof {
                        assert(cmd_wf(s0, gcmd));
                        assert(!self.edit_threatened_spec(seq![gcmd]));
                    }
                    self.push_single(viewer, Command::SetRowValue(row_id, next));
                    true
                } else {
                    false
                }
            },
        }
    }
}

/// Whether `v` contains `x`.
pub fn vec_contains_usize(v: &Vec<usize>, x: usize) -> (b: bool)

    ensures
        b == v@.contains(x),
{
    let n = v.len();
    let mut i: usize = 0;
    while i < n
        invariant
            n == v@.len(),
            i <= n,
            forall|j: int| 0 <= j < i ==> v@[j] != x,
        decreases n - i,
    {
        if v[i] == x {
            return true;
        }
        i = i + 1;
    }
    false
}

} // verus!
