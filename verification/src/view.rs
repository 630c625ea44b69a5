//! View Projection: the visible (filtered, stably sorted) row order,
//! derived from the Row Store and the viewer's filter and comparator.
//!
//! Sorting is a stable multi-key insertion sort: keys are compared left to
//! right, a descending key flips the comparison, ties fall through to the
//! next key, and a final tie keeps the filtered order. The comparator is
//! viewer-supplied and need not be a total order; whatever it answers, the
//! sort is a permutation, and rows it calls equal keep their relative order.

use vstd::prelude::*;

use crate::engine::{DataTable, EditState, SortKey, TableSnap, distinct_seq, seq_pos};
use crate::store::RowStore;
use crate::viewer::RowViewer;

verus! {

use core::cmp::Ordering;

/// The comparison with its direction reversed.
pub open spec fn flip_ord(o: Ordering) -> Ordering {
    match o {
        Ordering::Less => Ordering::Greater,
        Ordering::Equal => Ordering::Equal,
        Ordering::Greater => Ordering::Less,
    }
}

/// Multi-key comparison of two rows: the first key that does not tie
/// decides, descending keys flipped; no keys left means a tie.
pub open spec fn key_cmp<R, V: RowViewer<R>>(v: V, a: R, b: R, keys: Seq<SortKey>) -> Ordering
    decreases keys.len(),
{
    if keys.len() == 0 {
        Ordering::Equal
    } else {
        let k = keys.first();
        let c0 = v.compare_spec(a, b, k.column as int);
        let c = if k.ascending {
            c0
        } else {
            flip_ord(c0)
        };
        if c == Ordering::Equal {
            key_cmp(v, a, b, keys.drop_first())
        } else {
            c
        }
    }
}

/// Multi-key comparison of two live rows of a slot table.
pub open spec fn id_cmp<R, V: RowViewer<R>>(
    v: V,
    table: Seq<Option<R>>,
    keys: Seq<SortKey>,
    x: usize,
    y: usize,
) -> Ordering {
    key_cmp(v, table[x as int].unwrap(), table[y as int].unwrap(), keys)
}

/// Where the stable insertion places `x`: after every element it ties with
/// or loses to, before the maximal suffix of elements strictly greater.
pub open spec fn insert_sorted<R, V: RowViewer<R>>(
    v: V,
    table: Seq<Option<R>>,
    keys: Seq<SortKey>,
    s: Seq<usize>,
    x: usize,
) -> Seq<usize>
    decreases s.len(),
{
    if s.len() == 0 {
        seq![x]
    } else if id_cmp(v, table, keys, s.last(), x) == Ordering::Greater {
        insert_sorted(v, table, keys, s.drop_last(), x).push(s.last())
    } else {
        s.push(x)
    }
}

/// The stable multi-key insertion sort of a sequence of live row ids.
pub open spec fn sort_ids_spec<R, V: RowViewer<R>>(
    v: V,
    table: Seq<Option<R>>,
    keys: Seq<SortKey>,
    s: Seq<usize>,
) -> Seq<usize>
    decreases s.len(),
{
    if s.len() == 0 {
        Seq::empty()
    } else {
        insert_sorted(v, table, keys, sort_ids_spec(v, table, keys, s.drop_last()), s.last())
    }
}

/// The insertion point characterizes `insert_sorted`: if everything from
/// `p` on is strictly greater than `x` and the element before `p` (if any)
/// is not, the insertion is exactly `s.insert(p, x)`.
pub proof fn lemma_insert_sorted_at<R, V: RowViewer<R>>(
    v: V,
    table: Seq<Option<R>>,
    keys: Seq<SortKey>,
    s: Seq<usize>,
    x: usize,
    p: int,
)
    requires
        0 <= p <= s.len(),
        forall|j: int| p <= j < s.len() ==> id_cmp(v, table, keys, #[trigger] s[j], x)
            == Ordering::Greater,
        p > 0 ==> id_cmp(v, table, keys, s[p - 1], x) != Ordering::Greater,
    ensures
        insert_sorted(v, table, keys, s, x) == s.insert(p, x),
    decreases s.len(),
{
    if s.len() == 0 {
        assert(insert_sorted(v, table, keys, s, x) =~= s.insert(0, x));
    } else if id_cmp(v, table, keys, s.last(), x) == Ordering::Greater {
        assert(p < s.len()) by {
            if p == s.len() {
                assert(id_cmp(v, table, keys, s[p - 1], x) != Ordering::Greater);
                assert(s[p - 1] == s.last());
            }
        }
        let dl = s.drop_last();
        assert(forall|j: int| p <= j < dl.len() ==> id_cmp(v, table, keys, #[trigger] dl[j], x)
            == Ordering::Greater) by {
            assert(forall|j: int| 0 <= j < dl.len() ==> #[trigger] dl[j] == s[j]);
        }
        if p > 0 {
            assert(dl[p - 1] == s[p - 1]);
        }
        lemma_insert_sorted_at(v, table, keys, dl, x, p);
        assert(insert_sorted(v, table, keys, s, x) == dl.insert(p, x).push(s.last()));
        assert(dl.insert(p, x).push(s.last()) =~= s.insert(p, x));
    } else {
        assert(p == s.len()) by {
            if p < s.len() {
                assert(id_cmp(v, table, keys, s[s.len() - 1], x) == Ordering::Greater);
            }
        }
        assert(s.push(x) =~= s.insert(p, x));
    }
}

/// Every insertion is an `insert` at some position whose suffix is strictly
/// greater than the inserted element.
pub proof fn lemma_insert_sorted_shape<R, V: RowViewer<R>>(
    v: V,
    table: Seq<Option<R>>,
    keys: Seq<SortKey>,
    s: Seq<usize>,
    x: usize,
)
    ensures
        exists|p: int|
            {
                &&& 0 <= p <= s.len()
                &&& #[trigger] insert_sorted(v, table, keys, s, x) == s.insert(p, x)
                &&& forall|j: int| p <= j < s.len() ==> id_cmp(v, table, keys, #[trigger] s[j], x)
                    == Ordering::Greater
            },
    decreases s.len(),
{
    if s.len() == 0 {
        assert(insert_sorted(v, table, keys, s, x) =~= s.insert(0, x));
        assert(insert_sorted(v, table, keys, s, x) == s.insert(0, x) && 0 <= 0 <= s.len()
            && forall|j: int| 0 <= j < s.len() ==> id_cmp(v, table, keys, #[trigger] s[j], x)
            == Ordering::Greater);
    } else if id_cmp(v, table, keys, s.last(), x) == Ordering::Greater {
        let dl = s.drop_last();
        lemma_insert_sorted_shape(v, table, keys, dl, x);
        let p = choose|p: int|
            {
                &&& 0 <= p <= dl.len()
                &&& #[trigger] insert_sorted(v, table, keys, dl, x) == dl.insert(p, x)
                &&& forall|j: int| p <= j < dl.len() ==> id_cmp(v, table, keys, #[trigger] dl[j], x)
                    == Ordering::Greater
            };
        assert(insert_sorted(v, table, keys, s, x) == dl.insert(p, x).push(s.last()));
        assert(dl.insert(p, x).push(s.last()) =~= s.insert(p, x));
        assert(forall|j: int| p <= j < s.len() ==> id_cmp(v, table, keys, #[trigger] s[j], x)
            == Ordering::Greater) by {
            assert(forall|j: int| 0 <= j < dl.len() ==> #[trigger] s[j] == dl[j]);
            assert(s[s.len() - 1] == s.last());
        }
        assert(insert_sorted(v, table, keys, s, x) == s.insert(p, x) && 0 <= p <= s.len()
            && forall|j: int| p <= j < s.len() ==> id_cmp(v, table, keys, #[trigger] s[j], x)
            == Ordering::Greater);
    } else {
        let p = s.len() as int;
        assert(s.push(x) =~= s.insert(p, x));
        assert(insert_sorted(v, table, keys, s, x) == s.insert(p, x) && 0 <= p <= s.len()
            && forall|j: int| p <= j < s.len() ==> id_cmp(v, table, keys, #[trigger] s[j], x)
            == Ordering::Greater);
    }
}

/// Inserting into a sequence adds one occurrence to its multiset.
pub proof fn lemma_seq_insert_multiset<A>(s: Seq<A>, p: int, x: A)
    requires
        0 <= p <= s.len(),
    ensures
        s.insert(p, x).to_multiset() =~= s.to_multiset().insert(x),
{
    broadcast use vstd::seq_lib::group_to_multiset_ensures;

    let t = s.insert(p, x);
    assert(t.remove(p) =~= s);
    assert(t[p] == x);
    assert(t.remove(p).to_multiset() =~= t.to_multiset().remove(t[p]));
    assert(t.to_multiset().contains(x)) by {
        assert(t.contains(x)) by {
            assert(t[p] == x);
        }
    }
    assert(t.to_multiset() =~= t.to_multiset().remove(x).insert(x));
}

/// The sort permutes its input: same ids, same multiplicities.
pub proof fn lemma_sort_permutes<R, V: RowViewer<R>>(
    v: V,
    table: Seq<Option<R>>,
    keys: Seq<SortKey>,
    s: Seq<usize>,
)
    ensures
        sort_ids_spec(v, table, keys, s).to_multiset() == s.to_multiset(),
        sort_ids_spec(v, table, keys, s).len() == s.len(),
    decreases s.len(),
{
    broadcast use vstd::seq_lib::group_to_multiset_ensures;

    if s.len() == 0 {
        assert(sort_ids_spec(v, table, keys, s).to_multiset() =~= s.to_multiset());
    } else {
        let dl = s.drop_last();
        lemma_sort_permutes(v, table, keys, dl);
        let sorted = sort_ids_spec(v, table, keys, dl);
        lemma_insert_sorted_shape(v, table, keys, sorted, s.last());
        let p = choose|p: int|
            {
                &&& 0 <= p <= sorted.len()
                &&& #[trigger] insert_sorted(v, table, keys, sorted, s.last()) == sorted.insert(
                    p,
                    s.last(),
                )
                &&& forall|j: int| p <= j < sorted.len() ==> id_cmp(
                    v,
                    table,
                    keys,
                    #[trigger] sorted[j],
                    s.last(),
                ) == Ordering::Greater
            };
        lemma_seq_insert_multiset(sorted, p, s.last());
        assert(dl.push(s.last()) =~= s);
        assert(dl.push(s.last()).to_multiset() =~= dl.to_multiset().insert(s.last()));
        assert(sort_ids_spec(v, table, keys, s).to_multiset() =~= s.to_multiset());
    }
}

/// A permutation of distinct live ids is itself distinct and live.
pub proof fn lemma_permutation_distinct_live<R>(s: TableSnap<R>, a: Seq<usize>, b: Seq<usize>)
    requires
        a.to_multiset() == b.to_multiset(),
        distinct_seq(a),
        forall|i: int| 0 <= i < a.len() ==> s.live(#[trigger] a[i]),
    ensures
        distinct_seq(b),
        forall|i: int| 0 <= i < b.len() ==> s.live(#[trigger] b[i]),
{
    broadcast use vstd::seq_lib::group_to_multiset_ensures;

    a.lemma_multiset_has_no_duplicates();
    assert(b.no_duplicates()) by {
        assert(forall|x: usize|
            b.to_multiset().contains(x) ==> #[trigger] b.to_multiset().count(x) == 1);
        b.lemma_multiset_has_no_duplicates_conv();
    }
    assert forall|i: int| 0 <= i < b.len() implies s.live(#[trigger] b[i]) by {
        assert(b.contains(b[i]));
        assert(b.to_multiset().count(b[i]) > 0);
        assert(a.contains(b[i]));
        let w = choose|w: int| 0 <= w < a.len() && a[w] == b[i];
    }
    assert(distinct_seq(b)) by {
        assert(forall|i: int, j: int|
            0 <= i < b.len() && 0 <= j < b.len() && i != j ==> #[trigger] b[i] != #[trigger] b[j]);
    }
}

/// Compare two rows by the multi-key specification.
pub fn key_cmp_exec<R, V: RowViewer<R>>(v: &V, a: &R, b: &R, keys: &Vec<SortKey>) -> (r: Ordering)
    ensures
        r == key_cmp(*v, *a, *b, keys@),
{
    let n = keys.len();
    proof {
        assert(keys@.skip(0) =~= keys@);
    }
    let mut i: usize = 0;
    while i < n
        invariant
            n == keys@.len(),
            i <= n,
            key_cmp(*v, *a, *b, keys@) == key_cmp(*v, *a, *b, keys@.skip(i as int)),
        decreases n - i,
    {
        let k = keys[i];
        let c0 = v.compare_cell(a, b, k.column);
        let c = if k.ascending {
            c0
        } else {
            match c0 {
                Ordering::Less => Ordering::Greater,
                Ordering::Equal => Ordering::Equal,
                Ordering::Greater => Ordering::Less,
            }
        };
        proof {
            assert(keys@.skip(i as int).first() == keys@[i as int]);
            assert(keys@.skip(i as int).drop_first() =~= keys@.skip(i as int + 1));
        }
        match c {
            Ordering::Equal => {
                i = i + 1;
            },
            other => {
                return other;
            },
        }
    }
    proof {
        assert(keys@.skip(n as int) =~= Seq::<SortKey>::empty());
    }
    Ordering::Equal
}

/// Stable multi-key insertion sort of live row ids.
pub fn sort_ids<R, V: RowViewer<R>>(
    store: &RowStore<R>,
    viewer: &V,
    keys: &Vec<SortKey>,
    input: Vec<usize>,
) -> (out: Vec<usize>)
    requires
        store.wf(),
        forall|i: int| 0 <= i < input@.len() ==> store.spec_contains(#[trigger] input@[i]),
    ensures
        out@ == sort_ids_spec(*viewer, store.table(), keys@, input@),
{
    let ghost orig = input@;
    let mut input = input;
    let mut out: Vec<usize> = Vec::new();
    let ghost mut done: int = 0;
    while input.len() > 0
        invariant
            store.wf(),
            0 <= done <= orig.len(),
            input@ =~= orig.skip(done),
            forall|i: int| 0 <= i < orig.len() ==> store.spec_contains(#[trigger] orig[i]),
            out@ == sort_ids_spec(*viewer, store.table(), keys@, orig.take(done)),
            forall|i: int| 0 <= i < out@.len() ==> store.spec_contains(#[trigger] out@[i]),
        decreases input.len(),
    {
        let x = input.remove(0);
        proof {
            assert(x == orig[done]);
            assert(input@ =~= orig.skip(done + 1));
        }
        // Scan from the right for the insertion point: past every element
        // strictly greater than x.
        let mut p: usize = out.len();
        let mut scanning = true;
        while scanning && p > 0
            invariant
                store.wf(),
                store.spec_contains(x),
                forall|i: int| 0 <= i < out@.len() ==> store.spec_contains(#[trigger] out@[i]),
                p <= out@.len(),
                forall|j: int| p <= j < out@.len() ==> id_cmp(
                    *viewer,
                    store.table(),
                    keys@,
                    #[trigger] out@[j],
                    x,
                ) == Ordering::Greater,
                !scanning ==> p > 0 && id_cmp(*viewer, store.table(), keys@, out@[p - 1], x)
                    != Ordering::Greater,
            decreases p + if scanning {
                1int
            } else {
                0int
            },
        {
            let c = key_cmp_exec(viewer, store.get(out[p - 1]), store.get(x), keys);
            match c {
                Ordering::Greater => {
                    p = p - 1;
                },
                _ => {
                    scanning = false;
                },
            }
        }
        proof {
            if p > 0 {
                assert(id_cmp(*viewer, store.table(), keys@, out@[p - 1], x) != Ordering::Greater);
            }
            lemma_insert_sorted_at(*viewer, store.table(), keys@, out@, x, p as int);
            assert(orig.take(done + 1).drop_last() =~= orig.take(done));
            assert(orig.take(done + 1).last() == x);
        }
        out.insert(p, x);
        proof {
            done = done + 1;
        }
    }
    proof {
        assert(orig.take(done) =~= orig);
    }
    out
}

/// The ids that pass the viewer's filter, in arena order.
pub open spec fn filtered_ids<R, V: RowViewer<R>>(v: V, s: TableSnap<R>) -> Seq<usize> {
    s.ids.filter(|id: usize| v.filter_spec(s.table[id as int].unwrap()))
}

/// The visible row order: the filtered ids, stably sorted by the sort keys.
pub open spec fn projection_spec<R, V: RowViewer<R>>(v: V, s: TableSnap<R>) -> Seq<usize> {
    sort_ids_spec(v, s.table, s.sort, filtered_ids(v, s))
}

/// What recomputing the projection does to the edit session: an edit whose
/// row is no longer visible is discarded.
pub open spec fn refreshed_edit<R, V: RowViewer<R>>(
    v: V,
    s: TableSnap<R>,
    edit: EditState<R>,
) -> EditState<R> {
    match edit {
        EditState::Editing { row_id, .. } => if !projection_spec(v, s).contains(row_id) {
            EditState::Idle
        } else {
            edit
        },
        EditState::Idle => EditState::Idle,
    }
}

/// What a (possibly memoized) refresh may observe: either the projection
/// was recomputed from the current inputs, or it was already clean and
/// nothing moved.
pub open spec fn refresh_observation<R, V: RowViewer<R>>(
    v: V,
    pre: DataTable<R>,
    post: DataTable<R>,
) -> bool {
    ||| (post.visible_rows@ == projection_spec(v, pre.snap()) && post.edit == refreshed_edit(
        v,
        pre.snap(),
        pre.edit,
    ))
    ||| (!pre.projection_dirty && post.visible_rows == pre.visible_rows && post.edit == pre.edit)
}

impl<R> DataTable<R> {
    /// Recompute the visible-row projection from the current store, sort
    /// and filter, unconditionally. If the row being edited does not appear
    /// in the new projection (it was removed or filtered out), the edit
    /// session is discarded before the projection is installed, so no
    /// dangling working copy survives.
    pub fn force_refresh<V: RowViewer<R>>(&mut self, viewer: &mut V)
        requires
            old(self).wf(),
        ensures
            final(self).wf(),
            final(self).snap() == old(self).snap(),
            final(self).undo == old(self).undo,
            final(self).redo == old(self).redo,
            final(self).max_undo == old(self).max_undo,
            !final(self).projection_dirty,
            final(self).visible_rows@ == projection_spec(*old(viewer), old(self).snap()),
            final(self).edit == refreshed_edit(*old(viewer), old(self).snap(), old(self).edit),
    {
        let ghost s0 = self.snap();
        let ghost v0 = *viewer;
        let fp = viewer.filter_fingerprint();
        self.last_filter_fingerprint = fp;
        let ghost snap_of = |pos: int| TableSnap { ids: s0.ids.take(pos), ..s0 };
        // Filter: keep the ids whose rows pass, in arena order.
        let mut filtered: Vec<usize> = Vec::new();
        let n = self.store.len();
        let mut pos: usize = 0;
        while pos < n
            invariant
                *viewer == v0,
                old(self).wf(),
                self.store == old(self).store,
                self.sort == old(self).sort,
                self.vis_cols == old(self).vis_cols,
                self.num_columns == old(self).num_columns,
                self.selection == old(self).selection,
                self.visible_rows == old(self).visible_rows,
                self.projection_dirty == old(self).projection_dirty,
                self.edit == old(self).edit,
                self.undo == old(self).undo,
                self.redo == old(self).redo,
                self.max_undo == old(self).max_undo,
                s0 == self.snap(),
                n == s0.ids.len(),
                pos <= n,
                filtered@ == filtered_ids(v0, TableSnap { ids: s0.ids.take(pos as int), ..s0 }),
                forall|k: int|
                    0 <= k < filtered@.len() ==> self.store.spec_contains(#[trigger] filtered@[k]),
                forall|k: int|
                    0 <= k < filtered@.len() ==> exists|j: int|
                        0 <= j < pos && s0.ids[j] == #[trigger] filtered@[k],
                distinct_seq(filtered@),
            decreases n - pos,
        {
            let id = self.store.id_at(pos);
            let ghost fpre = filtered@;
            let keep = viewer.filter_row(self.store.get(id));
            if keep {
                filtered.push(id);
            }
            proof {
                let pred = |idq: usize| v0.filter_spec(s0.table[idq as int].unwrap());
                reveal(Seq::filter);
                assert(s0.ids.take(pos + 1).drop_last() =~= s0.ids.take(pos as int));
                assert(s0.ids.take(pos + 1).last() == id);
                assert(filtered@ == filtered_ids(v0, TableSnap { ids: s0.ids.take(pos + 1), ..s0 }));
                if keep {
                    assert forall|k: int| 0 <= k < filtered@.len() implies exists|j: int|
                        0 <= j < pos + 1 && s0.ids[j] == #[trigger] filtered@[k] by {
                        if k < fpre.len() {
                            assert(filtered@[k] == fpre[k]);
                            let j = choose|j: int| 0 <= j < pos && s0.ids[j] == fpre[k];
                            assert(0 <= j < pos + 1 && s0.ids[j] == filtered@[k]);
                        } else {
                            assert(filtered@[k] == id);
                            assert(s0.ids[pos as int] == id);
                        }
                    }
                    assert(distinct_seq(filtered@)) by {
                        assert forall|a: int, b: int|
                            0 <= a < filtered@.len() && 0 <= b < filtered@.len() && a != b
                            implies #[trigger] filtered@[a] != #[trigger] filtered@[b] by {
                            if a < fpre.len() && b < fpre.len() {
                                assert(filtered@[a] == fpre[a]);
                                assert(filtered@[b] == fpre[b]);
                            } else if a < fpre.len() {
                                let j = choose|j: int| 0 <= j < pos && s0.ids[j] == fpre[a];
                                assert(filtered@[a] == s0.ids[j]);
                                assert(filtered@[b] == s0.ids[pos as int]);
                            } else {
                                let j = choose|j: int| 0 <= j < pos && s0.ids[j] == fpre[b];
                                assert(filtered@[b] == s0.ids[j]);
                                assert(filtered@[a] == s0.ids[pos as int]);
                            }
                        }
                    }
                }
            }
            pos = pos + 1;
        }
        proof {
            assert(s0.ids.take(n as int) =~= s0.ids);
            assert(TableSnap { ids: s0.ids.take(n as int), ..s0 } =~= s0);
            assert(filtered@ == filtered_ids(v0, s0));
        }
        // Stable multi-key sort of the filtered ids.
        let ghost filtered_snapshot = filtered@;
        let sorted = sort_ids(&self.store, viewer, &self.sort, filtered);
        proof {
            assert(sorted@ == projection_spec(v0, s0));
            lemma_sort_permutes(v0, s0.table, s0.sort, filtered_snapshot);
            crate::view::lemma_permutation_distinct_live(s0, filtered_snapshot, sorted@);
        }
        // If the edited row vanished from view, drop the edit session before
        // installing the projection.
        let keep_edit = match &self.edit {
            EditState::Idle => false,
            EditState::Editing { row_id, .. } => crate::engine::vec_contains_usize(
                &sorted,
                *row_id,
            ),
        };
        if !keep_edit {
            self.edit = EditState::Idle;
        }
        self.visible_rows = sorted;
        self.projection_dirty = false;
    }

    /// Recompute the projection only if a dependency changed: a mutation
    /// marked it stale, or the filter fingerprint moved. Recomputation is
    /// idempotent and touches nothing but the projection (and a vanished
    /// edit session).
    pub fn refresh<V: RowViewer<R>>(&mut self, viewer: &mut V)
        requires
            old(self).wf(),
        ensures
            final(self).wf(),
            final(self).snap() == old(self).snap(),
            final(self).undo == old(self).undo,
            final(self).redo == old(self).redo,
            final(self).max_undo == old(self).max_undo,
            !final(self).projection_dirty,
            refresh_observation(*old(viewer), *old(self), *final(self)),
    {
        let fp = viewer.filter_fingerprint();
        if self.projection_dirty || fp != self.last_filter_fingerprint {
            self.force_refresh(viewer);
        }
    }

    /// Number of visible rows (valid once refreshed).
    pub fn visible_row_count(&self) -> (n: usize)
        ensures
            n == self.visible_rows@.len(),
    {
        self.visible_rows.len()
    }

    /// The stable id of the visible row at position `pos`.
    pub fn visible_row_id(&self, pos: usize) -> (id: usize)
        requires
            pos < self.visible_rows@.len(),
        ensures
            id == self.visible_rows@[pos as int],
    {
        self.visible_rows[pos]
    }

    /// The visible rows, in visible order.
    pub fn visible_rows_ref(&self) -> (r: &Vec<usize>)
        ensures
            r == &self.visible_rows,
    {
        &self.visible_rows
    }

    /// The visible columns, in visible order.
    pub fn visible_columns_ref(&self) -> (r: &Vec<usize>)
        ensures
            r == &self.vis_cols,
    {
        &self.vis_cols
    }

    /// Number of visible columns.
    pub fn visible_column_count(&self) -> (n: usize)
        ensures
            n == self.vis_cols@.len(),
    {
        self.vis_cols.len()
    }
}

/// Elements of a strict prefix keep their position in the full sequence.
proof fn lemma_seq_pos_prefix(s: Seq<usize>, y: usize)
    requires
        distinct_seq(s),
        s.len() > 0,
        s.drop_last().contains(y),
    ensures
        seq_pos(s, y) == seq_pos(s.drop_last(), y),
        0 <= seq_pos(s, y) < s.len() - 1,
{
    let w = choose|w: int| 0 <= w < s.drop_last().len() && s.drop_last()[w] == y;
    assert(s[w] == y);
    assert(distinct_seq(s.drop_last())) by {
        assert(forall|i: int, j: int|
            0 <= i < s.drop_last().len() && 0 <= j < s.drop_last().len() && i != j
                ==> #[trigger] s.drop_last()[i] != #[trigger] s.drop_last()[j]);
    }
    crate::engine::lemma_seq_pos(s.drop_last(), y, w);
    crate::engine::lemma_seq_pos(s, y, w);
}

/// Sorting is stable. Two rows leave their input order only when the
/// multi-key comparison says the one that came later sorts strictly before
/// (the earlier one compares `Greater` against it); in particular, rows the
/// comparison ties keep their original relative order exactly.
pub proof fn lemma_sort_stable<R, V: RowViewer<R>>(
    v: V,
    table: Seq<Option<R>>,
    keys: Seq<SortKey>,
    s: Seq<usize>,
)
    requires
        distinct_seq(s),
    ensures
        ({
            let out = sort_ids_spec(v, table, keys, s);
            &&& forall|i: int, j: int|
                0 <= i < j < out.len() && seq_pos(s, #[trigger] out[i]) > seq_pos(
                    s,
                    #[trigger] out[j],
                ) ==> id_cmp(v, table, keys, out[j], out[i]) == Ordering::Greater
            &&& forall|i: int, j: int|
                0 <= i < j < out.len() && id_cmp(v, table, keys, #[trigger] out[j], #[trigger] out[i])
                    == Ordering::Equal ==> seq_pos(s, out[i]) < seq_pos(s, out[j])
        }),
    decreases s.len(),
{
    broadcast use vstd::seq_lib::group_to_multiset_ensures;

    let out = sort_ids_spec(v, table, keys, s);
    if s.len() == 0 {
    } else {
        let dl = s.drop_last();
        let x = s.last();
        assert(distinct_seq(dl)) by {
            assert(forall|i: int, j: int|
                0 <= i < dl.len() && 0 <= j < dl.len() && i != j ==> #[trigger] dl[i]
                    != #[trigger] dl[j]);
        }
        lemma_sort_stable(v, table, keys, dl);
        let prev = sort_ids_spec(v, table, keys, dl);
        lemma_sort_permutes(v, table, keys, dl);
        lemma_insert_sorted_shape(v, table, keys, prev, x);
        let p = choose|p: int|
            {
                &&& 0 <= p <= prev.len()
                &&& #[trigger] insert_sorted(v, table, keys, prev, x) == prev.insert(p, x)
                &&& forall|j: int| p <= j < prev.len() ==> id_cmp(v, table, keys, #[trigger] prev[j], x)
                    == Ordering::Greater
            };
        assert(out == prev.insert(p, x));
        // Every element of the previous pass comes from the strict prefix of
        // the input, so its input position is below x's.
        assert forall|q: int| 0 <= q < prev.len() implies dl.contains(#[trigger] prev[q])
            && seq_pos(s, prev[q]) == seq_pos(dl, prev[q]) && 0 <= seq_pos(s, prev[q]) < s.len()
            - 1 by {
            assert(prev.contains(prev[q]));
            assert(prev.to_multiset().count(prev[q]) > 0);
            assert(dl.contains(prev[q]));
            lemma_seq_pos_prefix(s, prev[q]);
        }
        assert(seq_pos(s, x) == s.len() - 1) by {
            crate::engine::lemma_seq_pos(s, x, s.len() - 1);
        }
        assert forall|i: int, j: int|
            0 <= i < j < out.len() && seq_pos(s, #[trigger] out[i]) > seq_pos(s, #[trigger] out[j])
            implies id_cmp(v, table, keys, out[j], out[i]) == Ordering::Greater by {
            if i == p {
                // out[i] is x, the newest input: nothing has a larger
                // position, contradiction.
                assert(out[i] == x);
                assert(out[j] == prev[j - 1]);
                assert(seq_pos(s, out[j]) < s.len() - 1);
            } else if j == p {
                // out[j] is x; everything x moved past compares Greater
                // against it.
                assert(out[j] == x);
                assert(out[i] == prev[i]);
                assert(id_cmp(v, table, keys, prev[i], x) == Ordering::Greater);
            } else {
                let i2: int = if i < p {
                    i
                } else {
                    i - 1
                };
                let j2: int = if j < p {
                    j
                } else {
                    j - 1
                };
                assert(out[i] == prev[i2]);
                assert(out[j] == prev[j2]);
                assert(i2 < j2);
            }
        }
        assert forall|i: int, j: int|
            0 <= i < j < out.len() && id_cmp(v, table, keys, #[trigger] out[j], #[trigger] out[i])
                == Ordering::Equal implies seq_pos(s, out[i]) < seq_pos(s, out[j]) by {
            if seq_pos(s, out[i]) > seq_pos(s, out[j]) {
                assert(id_cmp(v, table, keys, out[j], out[i]) == Ordering::Greater);
            } else if seq_pos(s, out[i]) == seq_pos(s, out[j]) {
                // Distinct ids have distinct positions.
                lemma_sort_permutes(v, table, keys, s);
                crate::view::lemma_out_distinct(v, table, keys, s);
                let pi = seq_pos(s, out[i]);
                assert(out.contains(out[i]));
                assert(out.to_multiset().count(out[i]) > 0);
                assert(s.contains(out[i]));
                let wi = choose|w: int| 0 <= w < s.len() && s[w] == out[i];
                crate::engine::lemma_seq_pos(s, out[i], wi);
                assert(out.contains(out[j]));
                assert(out.to_multiset().count(out[j]) > 0);
                assert(s.contains(out[j]));
                let wj = choose|w: int| 0 <= w < s.len() && s[w] == out[j];
                crate::engine::lemma_seq_pos(s, out[j], wj);
                assert(s[wi] == out[i] && s[wj] == out[j]);
                assert(wi == wj);
                assert(out[i] == out[j]);
                assert(false);
            }
        }
    }
}

/// The sorted output of a duplicate-free input is duplicate-free.
pub proof fn lemma_out_distinct<R, V: RowViewer<R>>(
    v: V,
    table: Seq<Option<R>>,
    keys: Seq<SortKey>,
    s: Seq<usize>,
)
    requires
        distinct_seq(s),
    ensures
        distinct_seq(sort_ids_spec(v, table, keys, s)),
{
    broadcast use vstd::seq_lib::group_to_multiset_ensures;

    lemma_sort_permutes(v, table, keys, s);
    let out = sort_ids_spec(v, table, keys, s);
    s.lemma_multiset_has_no_duplicates();
    assert(out.no_duplicates()) by {
        assert(forall|y: usize|
            out.to_multiset().contains(y) ==> #[trigger] out.to_multiset().count(y) == 1);
        out.lemma_multiset_has_no_duplicates_conv();
    }
    assert(forall|i: int, j: int|
        0 <= i < out.len() && 0 <= j < out.len() && i != j ==> #[trigger] out[i]
            != #[trigger] out[j]);
}

/// The multi-key comparison is a function of the comparator alone: two
/// viewers that compare cells identically compare rows identically.
pub proof fn lemma_key_cmp_congruent<R, V: RowViewer<R>>(
    v1: V,
    v2: V,
    a: R,
    b: R,
    keys: Seq<SortKey>,
)
    requires
        forall|x: R, y: R, col: int| v1.compare_spec(x, y, col) == v2.compare_spec(x, y, col),
    ensures
        key_cmp(v1, a, b, keys) == key_cmp(v2, a, b, keys),
    decreases keys.len(),
{
    if keys.len() > 0 {
        lemma_key_cmp_congruent(v1, v2, a, b, keys.drop_first());
    }
}

/// The projection is a pure function of the Row Store, the sort keys, and
/// the viewer's filter and comparator: two viewers that filter and compare
/// identically project identically, whatever else they did in between.
/// In particular, reverting the filter (with no intervening mutation)
/// restores the original visible row order.
pub proof fn lemma_projection_congruent<R, V: RowViewer<R>>(v1: V, v2: V, s: TableSnap<R>)
    requires
        forall|r: R| v1.filter_spec(r) == v2.filter_spec(r),
        forall|x: R, y: R, col: int| v1.compare_spec(x, y, col) == v2.compare_spec(x, y, col),
    ensures
        projection_spec(v1, s) == projection_spec(v2, s),
{
    lemma_filtered_congruent(v1, v2, s, s.ids);
    assert(filtered_ids(v1, s) == filtered_ids(v2, s));
    lemma_sort_congruent(v1, v2, s.table, s.sort, filtered_ids(v1, s));
}

/// Equal filters filter equally.
proof fn lemma_filtered_congruent<R, V: RowViewer<R>>(v1: V, v2: V, s: TableSnap<R>, ids: Seq<usize>)
    requires
        forall|r: R| v1.filter_spec(r) == v2.filter_spec(r),
    ensures
        ids.filter(|id: usize| v1.filter_spec(s.table[id as int].unwrap())) == ids.filter(
            |id: usize| v2.filter_spec(s.table[id as int].unwrap()),
        ),
    decreases ids.len(),
{
    reveal(Seq::filter);
    if ids.len() > 0 {
        lemma_filtered_congruent(v1, v2, s, ids.drop_last());
    }
}

/// Equal comparators sort equally.
proof fn lemma_sort_congruent<R, V: RowViewer<R>>(
    v1: V,
    v2: V,
    table: Seq<Option<R>>,
    keys: Seq<SortKey>,
    s: Seq<usize>,
)
    requires
        forall|x: R, y: R, col: int| v1.compare_spec(x, y, col) == v2.compare_spec(x, y, col),
    ensures
        sort_ids_spec(v1, table, keys, s) == sort_ids_spec(v2, table, keys, s),
    decreases s.len(),
{
    if s.len() > 0 {
        lemma_sort_congruent(v1, v2, table, keys, s.drop_last());
        lemma_insert_congruent(
            v1,
            v2,
            table,
            keys,
            sort_ids_spec(v1, table, keys, s.drop_last()),
            s.last(),
        );
    }
}

/// Equal comparators insert equally.
proof fn lemma_insert_congruent<R, V: RowViewer<R>>(
    v1: V,
    v2: V,
    table: Seq<Option<R>>,
    keys: Seq<SortKey>,
    s: Seq<usize>,
    x: usize,
)
    requires
        forall|a: R, b: R, col: int| v1.compare_spec(a, b, col) == v2.compare_spec(a, b, col),
    ensures
        insert_sorted(v1, table, keys, s, x) == insert_sorted(v2, table, keys, s, x),
    decreases s.len(),
{
    if s.len() > 0 {
        lemma_key_cmp_congruent(
            v1,
            v2,
            table[s.last() as int].unwrap(),
            table[x as int].unwrap(),
            keys,
        );
        if id_cmp(v1, table, keys, s.last(), x) == Ordering::Greater {
            lemma_insert_congruent(v1, v2, table, keys, s.drop_last(), x);
        }
    }
}

/// With the always-true filter and no sort keys, the projection is exactly
/// the arena order.
pub proof fn lemma_projection_identity<R, V: RowViewer<R>>(v: V, s: TableSnap<R>)
    requires
        forall|r: R| v.filter_spec(r),
        s.sort.len() == 0,
    ensures
        projection_spec(v, s) == s.ids,
{
    lemma_filter_true(v, s, s.ids);
    lemma_sort_no_keys(v, s.table, s.sort, s.ids);
}

/// The always-true filter keeps everything.
proof fn lemma_filter_true<R, V: RowViewer<R>>(v: V, s: TableSnap<R>, ids: Seq<usize>)
    requires
        forall|r: R| v.filter_spec(r),
    ensures
        ids.filter(|id: usize| v.filter_spec(s.table[id as int].unwrap())) == ids,
    decreases ids.len(),
{
    reveal(Seq::filter);
    if ids.len() == 0 {
    } else {
        lemma_filter_true(v, s, ids.drop_last());
        assert(ids.drop_last().push(ids.last()) =~= ids);
    }
}

/// With no sort keys every comparison ties, so the sort is the identity.
proof fn lemma_sort_no_keys<R, V: RowViewer<R>>(
    v: V,
    table: Seq<Option<R>>,
    keys: Seq<SortKey>,
    s: Seq<usize>,
)
    requires
        keys.len() == 0,
    ensures
        sort_ids_spec(v, table, keys, s) == s,
    decreases s.len(),
{
    if s.len() > 0 {
        lemma_sort_no_keys(v, table, keys, s.drop_last());
        assert(insert_sorted(v, table, keys, s.drop_last(), s.last()) == s.drop_last().push(
            s.last(),
        ));
        assert(s.drop_last().push(s.last()) =~= s);
    }
}

} // verus!
