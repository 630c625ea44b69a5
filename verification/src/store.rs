//! Row Store: a stable-id arena of row values.
//!
//! A stable row id is an index into `slots` that is never reused while the
//! row exists: removal leaves a `None` slot behind, and fresh rows always
//! take a brand-new slot at the end. `order` is the arena order of the live
//! ids; sorting and filtering never touch it, so an id stays valid until the
//! row is explicitly removed, even when its visible position moves.

use vstd::prelude::*;

verus! {

pub struct RowStore<R> {
    /// Stable id -> value. `None` marks a removed row; the slot is kept so
    /// the id is never handed out again (and can be revived by undo).
    pub slots: Vec<Option<R>>,
    /// The arena order of the live ids.
    pub order: Vec<usize>,
}

impl<R> RowStore<R> {
    /// Internal consistency: every ordered id names a live slot, ids are
    /// never listed twice, and every live slot is listed.
    pub open spec fn wf(self) -> bool {
        &&& forall|i: int|
            0 <= i < self.order@.len() ==> (#[trigger] self.order@[i]) < self.slots@.len()
                && self.slots@[self.order@[i] as int] is Some
        &&& forall|i: int, j: int|
            0 <= i < self.order@.len() && 0 <= j < self.order@.len() && i != j
                ==> #[trigger] self.order@[i] != #[trigger] self.order@[j]
        &&& forall|id: int|
            0 <= id < self.slots@.len() && self.slots@[id] is Some
                ==> #[trigger] self.order@.contains(id as usize)
    }

    /// The sequence of live ids, in arena order.
    pub open spec fn ids(self) -> Seq<usize> {
        self.order@
    }

    /// The slot table, indexed by stable id.
    pub open spec fn table(self) -> Seq<Option<R>> {
        self.slots@
    }

    /// Whether `id` names a live row.
    pub open spec fn spec_contains(self, id: usize) -> bool {
        id < self.slots@.len() && self.slots@[id as int] is Some
    }

    /// The value of the live row `id`.
    pub open spec fn spec_get(self, id: usize) -> R
        recommends
            self.spec_contains(id),
    {
        self.slots@[id as int].unwrap()
    }

    /// The row values in arena order.
    pub open spec fn rows_in_order(self) -> Seq<R> {
        self.order@.map(|_i: int, id: usize| self.spec_get(id))
    }

    pub fn new() -> (s: Self)
        ensures
            s.wf(),
            s.ids() == Seq::<usize>::empty(),
            s.table() == Seq::<Option<R>>::empty(),
    {
        RowStore { slots: Vec::new(), order: Vec::new() }
    }

    /// Number of live rows.
    pub fn len(&self) -> (n: usize)
        ensures
            n == self.ids().len(),
    {
        self.order.len()
    }

    /// Total number of slots ever allocated (the next fresh id).
    pub fn next_id(&self) -> (n: usize)
        ensures
            n == self.table().len(),
    {
        self.slots.len()
    }

    pub fn contains(&self, id: usize) -> (b: bool)
        ensures
            b == self.spec_contains(id),
    {
        id < self.slots.len() && self.slots[id].is_some()
    }

    pub fn get(&self, id: usize) -> (r: &R)
        requires
            self.spec_contains(id),
        ensures
            *r == self.spec_get(id),
    {
        self.slots[id].as_ref().unwrap()
    }

    /// The id at arena position `pos`.
    pub fn id_at(&self, pos: usize) -> (id: usize)
        requires
            pos < self.ids().len(),
        ensures
            id == self.ids()[pos as int],
    {
        self.order[pos]
    }

    /// The arena position of the live row `id`.
    pub fn position_of(&self, id: usize) -> (pos: usize)
        requires
            self.wf(),
            self.spec_contains(id),
        ensures
            pos < self.ids().len(),
            self.ids()[pos as int] == id,
    {
        assert(self.order@.contains((id as int) as usize));
        assert(self.order@.contains(id));
        let n = self.order.len();
        let mut pos: usize = 0;
        while pos < n
            invariant
                n == self.order@.len(),
                pos <= n,
                self.order@.contains(id),
                forall|i: int| 0 <= i < pos ==> self.order@[i] != id,
            decreases n - pos,
        {
            if self.order[pos] == id {
                return pos;
            }
            pos = pos + 1;
        }
        proof {
            let w = choose|w: int| 0 <= w < self.order@.len() && self.order@[w] == id;
            assert(false);
        }
        unreached()
    }

    /// Insert a fresh row at arena position `pos`, returning its stable id.
    pub fn insert_at(&mut self, pos: usize, value: R) -> (id: usize)
        requires
            old(self).wf(),
            pos <= old(self).ids().len(),
        ensures
            final(self).wf(),
            id == old(self).table().len(),
            final(self).table() == old(self).table().push(Some(value)),
            final(self).ids() == old(self).ids().insert(pos as int, id),
            !old(self).spec_contains(id),
            final(self).spec_contains(id),
    {
        let id = self.slots.len();
        self.slots.push(Some(value));
        assert(forall|i: int|
            0 <= i < self.order@.len() ==> (#[trigger] self.order@[i]) != id) by {
            assert(forall|i: int|
                0 <= i < self.order@.len()
                    ==> (#[trigger] self.order@[i]) < old(self).slots@.len());
        }
        self.order.insert(pos, id);
        proof {
            assert forall|sid: int|
                0 <= sid < self.slots@.len() && self.slots@[sid] is Some
                implies #[trigger] self.order@.contains(sid as usize) by {
                if sid < old(self).slots@.len() {
                    assert(old(self).slots@[sid] is Some);
                    assert(old(self).order@.contains(sid as usize));
                    let w = choose|w: int|
                        0 <= w < old(self).order@.len() && old(self).order@[w] == sid as usize;
                    if w < pos {
                        assert(self.order@[w] == sid as usize);
                    } else {
                        assert(self.order@[w + 1] == sid as usize);
                    }
                } else {
                    assert(self.order@[pos as int] == sid as usize);
                }
            }
        }
        id
    }

    /// Revive a removed row: put `value` back into the free slot `id` and
    /// splice the id into the arena order at `pos`. Exact inverse of a
    /// removal that took the row from position `pos`.
    pub fn restore(&mut self, pos: usize, id: usize, value: R)
        requires
            old(self).wf(),
            pos <= old(self).ids().len(),
            id < old(self).table().len(),
            old(self).table()[id as int] is None,
        ensures
            final(self).wf(),
            final(self).table() == old(self).table().update(id as int, Some(value)),
            final(self).ids() == old(self).ids().insert(pos as int, id),
            final(self).spec_contains(id),
    {
        self.slots[id] = Some(value);
        assert(forall|i: int|
            0 <= i < self.order@.len() ==> (#[trigger] self.order@[i]) != id) by {
            assert(forall|i: int|
                0 <= i < self.order@.len()
                    ==> old(self).slots@[#[trigger] self.order@[i] as int] is Some);
        }
        self.order.insert(pos, id);
        proof {
            assert forall|sid: int|
                0 <= sid < self.slots@.len() && self.slots@[sid] is Some
                implies #[trigger] self.order@.contains(sid as usize) by {
                if sid != id {
                    assert(old(self).slots@[sid] is Some);
                    assert(old(self).order@.contains(sid as usize));
                    let w = choose|w: int|
                        0 <= w < old(self).order@.len() && old(self).order@[w] == sid as usize;
                    if w < pos {
                        assert(self.order@[w] == sid as usize);
                    } else {
                        assert(self.order@[w + 1] == sid as usize);
                    }
                } else {
                    assert(self.order@[pos as int] == sid as usize);
                }
            }
        }
    }

    /// Remove the live row `id`, returning its arena position and value.
    /// The slot stays behind (as `None`), so the id is never reused.
    pub fn remove_id(&mut self, id: usize) -> (r: (usize, R))
        requires
            old(self).wf(),
            old(self).spec_contains(id),
        ensures
            final(self).wf(),
            r.0 < old(self).ids().len(),
            old(self).ids()[r.0 as int] == id,
            r.1 == old(self).spec_get(id),
            final(self).table() == old(self).table().update(id as int, None::<R>),
            final(self).ids() == old(self).ids().remove(r.0 as int),
            !final(self).spec_contains(id),
    {
        let pos = self.position_of(id);
        let removed = self.order.remove(pos);
        assert(removed == id);
        let slot = &mut self.slots[id];
        let value = slot.take();
        assert(value is Some);
        proof {
            assert forall|sid: int|
                0 <= sid < self.slots@.len() && self.slots@[sid] is Some
                implies #[trigger] self.order@.contains(sid as usize) by {
                assert(sid != id);
                assert(old(self).slots@[sid] is Some);
                assert(old(self).order@.contains(sid as usize));
                let w = choose|w: int|
                    0 <= w < old(self).order@.len() && old(self).order@[w] == sid as usize;
                vstd::std_specs::vec::axiom_spec_len(&self.slots);
                assert(sid as usize != id);
                assert(old(self).order@[pos as int] == id);
                assert(w != pos);
                if w < pos {
                    assert(self.order@[w] == sid as usize);
                } else {
                    assert(self.order@[w - 1] == sid as usize);
                }
            }
        }
        (pos, value.unwrap())
    }

    /// Remove the newest live row `id` (the one in the last slot) and
    /// discard its slot entirely, so the next fresh id is `id` again.
    /// Exact inverse of an insertion.
    pub fn pop_newest(&mut self, id: usize) -> (r: (usize, R))
        requires
            old(self).wf(),
            old(self).spec_contains(id),
            id + 1 == old(self).table().len(),
        ensures
            final(self).wf(),
            r.0 < old(self).ids().len(),
            old(self).ids()[r.0 as int] == id,
            r.1 == old(self).spec_get(id),
            final(self).table() == old(self).table().drop_last(),
            final(self).ids() == old(self).ids().remove(r.0 as int),
    {
        let (pos, v) = self.remove_id(id);
        let none_slot = self.slots.pop();
        proof {
            assert(none_slot == Some(None::<R>));
            assert(self.slots@ =~= old(self).slots@.drop_last());
            assert forall|i: int|
                0 <= i < self.order@.len() implies (#[trigger] self.order@[i]) < self.slots@.len()
                && self.slots@[self.order@[i] as int] is Some by {
                assert(self.order@[i] != id);
                assert(self.order@[i] < old(self).slots@.len());
            }
        }
        (pos, v)
    }

    /// Replace the value of live row `id`, returning the previous value.
    /// The arena order is untouched.
    pub fn replace(&mut self, id: usize, value: R) -> (prev: R)
        requires
            old(self).wf(),
            old(self).spec_contains(id),
        ensures
            final(self).wf(),
            prev == old(self).spec_get(id),
            final(self).table() == old(self).table().update(id as int, Some(value)),
            final(self).ids() == old(self).ids(),
    {
        let slot = &mut self.slots[id];
        let prev = slot.take();
        *slot = Some(value);
        assert(prev is Some);
        proof {
            assert forall|sid: int|
                0 <= sid < self.slots@.len() && self.slots@[sid] is Some
                implies #[trigger] self.order@.contains(sid as usize) by {
                if sid != id {
                    assert(old(self).slots@[sid] is Some);
                }
            }
        }
        prev.unwrap()
    }
}

} // verus!
