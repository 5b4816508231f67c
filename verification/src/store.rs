//! The note store: the authority over the collection and its invariants.

use vstd::prelude::*;

use crate::note::{clone_chars, contains_id, ids_unique, views, Note, NoteView};

verus! {

/// The note store. It owns the collection and the id-allocation counter.
/// Every id in the collection is strictly below `next_id`, so each id that
/// `add` hands out is fresh; ids are unique across the collection.
pub struct NoteStore {
    pub notes: Vec<Note>,
    pub next_id: u32,
}

/// What `delete` leaves: every note whose id differs from `id`, in order.
pub open spec fn spec_delete(ns: Seq<NoteView>, id: u32) -> Seq<NoteView> {
    ns.filter(|n: NoteView| n.id != id)
}

/// What `toggle_pin` leaves: the same notes in the same order, with the
/// pinned flag flipped on those whose id is `id`.
pub open spec fn spec_toggle(ns: Seq<NoteView>, id: u32) -> Seq<NoteView> {
    ns.map_values(
        |n: NoteView|
            if n.id == id {
                NoteView { id: n.id, content: n.content, pinned: !n.pinned }
            } else {
                n
            },
    )
}

/// The ordering `list` returns: pinned notes first, then unpinned ones,
/// each group keeping the collection's relative order.
pub open spec fn spec_pin_order(ns: Seq<NoteView>) -> Seq<NoteView> {
    ns.filter(|n: NoteView| n.pinned) + ns.filter(|n: NoteView| !n.pinned)
}

/// The position of the first note in `ns` with the id `id`, if any.
pub open spec fn spec_find(ns: Seq<NoteView>, id: u32) -> Option<int>
    decreases ns.len(),
{
    if ns.len() == 0 {
        None
    } else if ns[0].id == id {
        Some(0)
    } else {
        match spec_find(ns.drop_first(), id) {
            Some(p) => Some(p + 1),
            None => None,
        }
    }
}

/// What `reorder` produces: the notes whose ids appear in `ids`, in that
/// order (first occurrence counts; unknown ids are ignored), followed by
/// the remaining notes in their prior relative order.
pub open spec fn spec_reorder(ns: Seq<NoteView>, ids: Seq<u32>) -> Seq<NoteView>
    decreases ids.len(),
{
    if ids.len() == 0 {
        ns
    } else {
        match spec_find(ns, ids[0]) {
            Some(p) => seq![ns[p]] + spec_reorder(ns.remove(p), ids.drop_first()),
            None => spec_reorder(ns, ids.drop_first()),
        }
    }
}

/// Mapping note models over a push appends the pushed note's model.
pub proof fn lemma_views_push(s: Seq<Note>, n: Note)
    ensures
        views(s.push(n)) == views(s).push(n@),
{
    assert forall|i: int| 0 <= i < s.len() + 1 implies views(s.push(n))[i] == views(s).push(n@)[i]
    by {
        if i < s.len() {
            assert(s.push(n)[i] == s[i]);
        } else {
            assert(s.push(n)[i] == n);
        }
    }
    assert(views(s.push(n)) =~= views(s).push(n@));
}

impl NoteStore {
    /// The store's invariant: ids are unique and every id is strictly
    /// below the allocation counter, which starts at 1.
    pub open spec fn wf(&self) -> bool {
        &&& ids_unique(views(self.notes@))
        &&& forall|k: int|
            0 <= k < self.notes@.len() ==> (#[trigger] views(self.notes@)[k]).id < self.next_id
        &&& self.next_id >= 1
    }

    /// An empty store; the first id handed out is 1.
    pub fn new() -> (s: NoteStore)
        ensures
            s.wf(),
            views(s.notes@) == Seq::<NoteView>::empty(),
            s.next_id == 1,
    {
        let s = NoteStore { notes: Vec::new(), next_id: 1 };
        proof {
            assert(views(s.notes@) =~= Seq::<NoteView>::empty());
        }
        s
    }

    /// Appends a new note with the next id, the given content and the
    /// pinned flag off, then advances the counter.
    pub fn add(&mut self, content: Vec<char>)
        requires
            old(self).wf(),
            old(self).next_id < u32::MAX,
        ensures
            final(self).wf(),
            views(final(self).notes@) == views(old(self).notes@).push(
                NoteView { id: old(self).next_id, content: content@, pinned: false },
            ),
            final(self).next_id == old(self).next_id + 1,
    {
        let ghost old_views = views(self.notes@);
        let note = Note { id: self.next_id, content, pinned: false };
        let ghost nv = note@;
        proof {
            lemma_views_push(self.notes@, note);
        }
        self.notes.push(note);
        self.next_id = self.next_id + 1;
        proof {
            assert(views(self.notes@) == old_views.push(nv));
            assert forall|j: int, l: int|
                0 <= j < l < old_views.len() + 1 implies views(self.notes@)[j].id != views(
                self.notes@,
            )[l].id by {
                if l < old_views.len() {
                } else {
                    assert(views(self.notes@)[j].id < nv.id);
                }
            }
        }
    }

    /// Removes the note with the given id if present; a no-op otherwise.
    #[verifier::loop_isolation(false)]
    pub fn delete(&mut self, id: u32)
        requires
            old(self).wf(),
        ensures
            final(self).wf(),
            views(final(self).notes@) == spec_delete(views(old(self).notes@), id),
            final(self).next_id == old(self).next_id,
    {
        let ghost old_views = views(self.notes@);
        let ghost pred = |n: NoteView| n.id != id;
        let mut kept: Vec<Note> = Vec::new();
        let mut k: usize = 0;
        while k < self.notes.len()
            invariant
                k <= self.notes.len(),
                views(self.notes@) == old_views,
                views(kept@) == old_views.take(k as int).filter(pred),
            decreases self.notes.len() - k,
        {
            let ghost prefix = old_views.take(k as int);
            proof {
                lemma_filter_take_step(old_views, pred, k as int);
                assert(old_views[k as int] == self.notes@[k as int]@);
            }
            if self.notes[k].id != id {
                let kept_note = self.notes[k].duplicate();
                let ghost kv = kept_note@;
                proof {
                    lemma_views_push(kept@, kept_note);
                    assert(kv == old_views[k as int]);
                    assert(pred(old_views[k as int]));
                }
                kept.push(kept_note);
                proof {
                    assert(views(kept@) == prefix.filter(pred).push(kv));
                    assert(views(kept@) =~= prefix.filter(pred) + seq![kv]);
                }
            } else {
                proof {
                    assert(!pred(old_views[k as int]));
                    assert(old_views.take(k as int + 1).filter(pred) =~= prefix.filter(pred));
                }
            }
            k = k + 1;
        }
        self.notes = kept;
        proof {
            assert(old_views.take(old_views.len() as int) =~= old_views);
            lemma_filter_keeps_ids_unique(old_views, pred);
            lemma_filter_ids_bounded(old_views, pred, self.next_id);
        }
    }

    /// Flips the pinned flag on the note with the given id if present; a
    /// no-op otherwise.
    #[verifier::loop_isolation(false)]
    pub fn toggle_pin(&mut self, id: u32)
        requires
            old(self).wf(),
        ensures
            final(self).wf(),
            views(final(self).notes@) == spec_toggle(views(old(self).notes@), id),
            final(self).next_id == old(self).next_id,
    {
        let ghost old_views = views(self.notes@);
        let ghost toggled = spec_toggle(old_views, id);
        let mut flipped: Vec<Note> = Vec::new();
        let mut k: usize = 0;
        while k < self.notes.len()
            invariant
                k <= self.notes.len(),
                views(self.notes@) == old_views,
                views(flipped@) == spec_toggle(old_views, id).take(k as int),
            decreases self.notes.len() - k,
        {
            proof {
                assert(old_views[k as int] == self.notes@[k as int]@);
            }
            let n = &self.notes[k];
            let next = if n.id == id {
                Note { id: n.id, content: clone_chars(&n.content), pinned: !n.pinned }
            } else {
                n.duplicate()
            };
            let ghost xv = next@;
            proof {
                lemma_views_push(flipped@, next);
                assert(xv == toggled[k as int]);
            }
            flipped.push(next);
            proof {
                assert(views(flipped@) == toggled.take(k as int).push(xv));
                assert(views(flipped@) =~= toggled.take(k as int + 1));
            }
            k = k + 1;
        }
        self.notes = flipped;
        proof {
            assert(toggled.take(old_views.len() as int) =~= toggled);
            assert forall|j: int, l: int| 0 <= j < l < toggled.len() implies toggled[j].id
                != toggled[l].id by {
                assert(old_views[j].id != old_views[l].id);
            }
            assert forall|k2: int| 0 <= k2 < toggled.len() implies (#[trigger] toggled[k2]).id
                < self.next_id by {
                assert(old_views[k2].id < self.next_id);
            }
        }
    }

    /// A snapshot of the collection in display order: pinned notes first,
    /// then unpinned ones, each group in the collection's relative order.
    #[verifier::loop_isolation(false)]
    pub fn list(&self) -> (r: Vec<Note>)
        ensures
            views(r@) == spec_pin_order(views(self.notes@)),
    {
        let ghost vs = views(self.notes@);
        let ghost pinned = |n: NoteView| n.pinned;
        let ghost unpinned = |n: NoteView| !n.pinned;
        let mut r: Vec<Note> = Vec::new();
        let mut k: usize = 0;
        while k < self.notes.len()
            invariant
                k <= self.notes.len(),
                views(self.notes@) == vs,
                views(r@) == vs.take(k as int).filter(pinned),
            decreases self.notes.len() - k,
        {
            let ghost prefix = vs.take(k as int);
            proof {
                lemma_filter_take_step(vs, pinned, k as int);
                assert(vs[k as int] == self.notes@[k as int]@);
            }
            if self.notes[k].pinned {
                let picked = self.notes[k].duplicate();
                let ghost pv = picked@;
                proof {
                    lemma_views_push(r@, picked);
                    assert(pinned(vs[k as int]));
                }
                r.push(picked);
                proof {
                    assert(views(r@) == prefix.filter(pinned).push(pv));
                    assert(views(r@) =~= prefix.filter(pinned) + seq![pv]);
                }
            } else {
                proof {
                    assert(!pinned(vs[k as int]));
                    assert(vs.take(k as int + 1).filter(pinned) =~= prefix.filter(pinned));
                }
            }
            k = k + 1;
        }
        proof {
            assert(vs.take(vs.len() as int) =~= vs);
        }
        let mut j: usize = 0;
        while j < self.notes.len()
            invariant
                j <= self.notes.len(),
                views(self.notes@) == vs,
                views(r@) == vs.filter(pinned) + vs.take(j as int).filter(unpinned),
            decreases self.notes.len() - j,
        {
            let ghost prefix = vs.take(j as int);
            proof {
                lemma_filter_take_step(vs, unpinned, j as int);
                assert(vs[j as int] == self.notes@[j as int]@);
            }
            if !self.notes[j].pinned {
                let picked = self.notes[j].duplicate();
                let ghost pv = picked@;
                proof {
                    lemma_views_push(r@, picked);
                    assert(unpinned(vs[j as int]));
                }
                r.push(picked);
                proof {
                    assert(views(r@) == (vs.filter(pinned) + prefix.filter(unpinned)).push(pv));
                    assert(views(r@) =~= vs.filter(pinned) + (prefix.filter(unpinned) + seq![pv]));
                }
            } else {
                proof {
                    assert(!unpinned(vs[j as int]));
                    assert(vs.take(j as int + 1).filter(unpinned) =~= prefix.filter(unpinned));
                }
            }
            j = j + 1;
        }
        proof {
            assert(vs.take(vs.len() as int) =~= vs);
        }
        r
    }
}

/// Unfolds one step of `filter` over a growing prefix: filtering the first
/// `k + 1` elements appends the element at `k` when the predicate holds.
pub proof fn lemma_filter_take_step(s: Seq<NoteView>, pred: spec_fn(NoteView) -> bool, k: int)
    requires
        0 <= k < s.len(),
    ensures
        s.take(k + 1).filter(pred) == s.take(k).filter(pred) + (if pred(s[k]) {
            seq![s[k]]
        } else {
            Seq::<NoteView>::empty()
        }),
{
    reveal(Seq::filter);
    let t = s.take(k + 1);
    assert(t.drop_last() =~= s.take(k));
    assert(t.last() == s[k]);
    if pred(s[k]) {
        assert(t.filter(pred) =~= s.take(k).filter(pred) + seq![s[k]]);
    } else {
        assert(t.filter(pred) =~= s.take(k).filter(pred) + Seq::<NoteView>::empty());
    }
}

/// Every element of a filtered sequence occurs in the original.
proof fn lemma_filter_element_of(s: Seq<NoteView>, pred: spec_fn(NoteView) -> bool, i: int)
    requires
        0 <= i < s.filter(pred).len(),
    ensures
        exists|k: int| 0 <= k < s.len() && s[k] == s.filter(pred)[i],
    decreases s.len(),
{
    reveal(Seq::filter);
    if s.len() > 0 {
        let fp = s.drop_last().filter(pred);
        if i < fp.len() {
            lemma_filter_element_of(s.drop_last(), pred, i);
            let k = choose|k: int| 0 <= k < s.drop_last().len() && s.drop_last()[k] == fp[i];
            assert(s[k] == s.filter(pred)[i]);
        } else {
            assert(s.filter(pred)[i] == s.last());
            assert(s[s.len() - 1] == s.last());
        }
    }
}

/// Filtering keeps ids unique.
pub proof fn lemma_filter_keeps_ids_unique(s: Seq<NoteView>, pred: spec_fn(NoteView) -> bool)
    requires
        ids_unique(s),
    ensures
        ids_unique(s.filter(pred)),
    decreases s.len(),
{
    reveal(Seq::filter);
    if s.len() > 0 {
        assert(ids_unique(s.drop_last()));
        lemma_filter_keeps_ids_unique(s.drop_last(), pred);
        let f = s.filter(pred);
        let fp = s.drop_last().filter(pred);
        assert forall|j: int, l: int| 0 <= j < l < f.len() implies f[j].id != f[l].id by {
            if l < fp.len() {
            } else {
                assert(f[l] == s.last());
                lemma_filter_element_of(s.drop_last(), pred, j);
                let k = choose|k: int| 0 <= k < s.drop_last().len() && s.drop_last()[k] == fp[j];
                assert(s[k].id != s[s.len() - 1].id);
            }
        }
    }
}

/// Filtering keeps every id strictly below a bound.
pub proof fn lemma_filter_ids_bounded(s: Seq<NoteView>, pred: spec_fn(NoteView) -> bool, bound: u32)
    requires
        forall|k: int| 0 <= k < s.len() ==> (#[trigger] s[k]).id < bound,
    ensures
        forall|k: int| 0 <= k < s.filter(pred).len() ==> (#[trigger] s.filter(pred)[k]).id < bound,
{
    assert forall|k: int| 0 <= k < s.filter(pred).len() implies (#[trigger] s.filter(pred)[k]).id
        < bound by {
        lemma_filter_element_of(s, pred, k);
    }
}

} // verus!


verus! {

/// Mapping note models over a removal removes the model at that place.
proof fn lemma_views_remove(s: Seq<Note>, p: int)
    requires
        0 <= p < s.len(),
    ensures
        views(s.remove(p)) == views(s).remove(p),
{
    s.remove_ensures(p);
    views(s).remove_ensures(p);
    assert forall|i: int| 0 <= i < s.len() - 1 implies views(s.remove(p))[i] == views(s).remove(
        p,
    )[i] by {
        if i < p {
            assert(s.remove(p)[i] == s[i]);
            assert(views(s).remove(p)[i] == views(s)[i]);
        } else {
            assert(s.remove(p)[i] == s[i + 1]);
            assert(views(s).remove(p)[i] == views(s)[i + 1]);
        }
    }
    assert(views(s.remove(p)) =~= views(s).remove(p));
}

/// Removing a note keeps the others' ids unique, below any bound they
/// were below, and different from the removed note's id.
proof fn lemma_remove_keeps(ns: Seq<NoteView>, p: int)
    requires
        0 <= p < ns.len(),
        ids_unique(ns),
    ensures
        ids_unique(ns.remove(p)),
        forall|k: int|
            0 <= k < ns.remove(p).len() ==> (#[trigger] ns.remove(p)[k]).id != ns[p].id,
        forall|k: int|
            0 <= k < ns.remove(p).len() ==> contains_id(ns, (#[trigger] ns.remove(p)[k]).id),
{
    ns.remove_ensures(p);
    assert forall|j: int, l: int| 0 <= j < l < ns.remove(p).len() implies ns.remove(p)[j].id
        != ns.remove(p)[l].id by {
        if j < p {
            assert(ns.remove(p)[j] == ns[j]);
        } else {
            assert(ns.remove(p)[j] == ns[j + 1]);
        }
        if l < p {
            assert(ns.remove(p)[l] == ns[l]);
        } else {
            assert(ns.remove(p)[l] == ns[l + 1]);
        }
    }
    assert forall|k: int| 0 <= k < ns.remove(p).len() implies (#[trigger] ns.remove(p)[k]).id
        != ns[p].id by {
        if k < p {
            assert(ns.remove(p)[k] == ns[k]);
        } else {
            assert(ns.remove(p)[k] == ns[k + 1]);
        }
    }
    assert forall|k: int| 0 <= k < ns.remove(p).len() implies contains_id(
        ns,
        (#[trigger] ns.remove(p)[k]).id,
    ) by {
        if k < p {
            assert(ns.remove(p)[k] == ns[k]);
        } else {
            assert(ns.remove(p)[k] == ns[k + 1]);
        }
    }
}

/// What `spec_find` answers: the first position holding the id, or
/// nothing when no note has it.
pub proof fn lemma_find_characterization(ns: Seq<NoteView>, id: u32)
    ensures
        match spec_find(ns, id) {
            Some(p) => 0 <= p < ns.len() && ns[p].id == id && forall|q: int|
                0 <= q < p ==> ns[q].id != id,
            None => !contains_id(ns, id),
        },
    decreases ns.len(),
{
    if ns.len() == 0 {
        assert(!contains_id(ns, id));
    } else if ns[0].id == id {
    } else {
        lemma_find_characterization(ns.drop_first(), id);
        match spec_find(ns.drop_first(), id) {
            Some(p) => {
                assert(ns.drop_first()[p] == ns[p + 1]);
                assert forall|q: int| 0 <= q < p + 1 implies ns[q].id != id by {
                    if q > 0 {
                        assert(ns.drop_first()[q - 1] == ns[q]);
                    }
                }
            },
            None => {
                if contains_id(ns, id) {
                    let w = choose|w: int| 0 <= w < ns.len() && ns[w].id == id;
                    assert(ns.drop_first()[w - 1] == ns[w]);
                    assert(contains_id(ns.drop_first(), id));
                }
            },
        }
    }
}

/// Reordering keeps the length, the ids' uniqueness, and draws every id
/// from the original collection.
pub proof fn lemma_reorder_wf(ns: Seq<NoteView>, ids: Seq<u32>)
    requires
        ids_unique(ns),
    ensures
        spec_reorder(ns, ids).len() == ns.len(),
        ids_unique(spec_reorder(ns, ids)),
        forall|k: int|
            0 <= k < spec_reorder(ns, ids).len() ==> contains_id(
                ns,
                (#[trigger] spec_reorder(ns, ids)[k]).id,
            ),
    decreases ids.len(),
{
    if ids.len() == 0 {
        assert forall|k: int| 0 <= k < ns.len() implies contains_id(
            ns,
            (#[trigger] ns[k]).id,
        ) by {}
    } else {
        lemma_find_characterization(ns, ids[0]);
        match spec_find(ns, ids[0]) {
            None => {
                lemma_reorder_wf(ns, ids.drop_first());
            },
            Some(p) => {
                lemma_remove_keeps(ns, p);
                lemma_reorder_wf(ns.remove(p), ids.drop_first());
                let r = spec_reorder(ns, ids);
                let tail = spec_reorder(ns.remove(p), ids.drop_first());
                assert(r == seq![ns[p]] + tail);
                assert forall|j: int, l: int| 0 <= j < l < r.len() implies r[j].id != r[l].id by {
                    if j == 0 {
                        assert(r[l] == tail[l - 1]);
                        assert(contains_id(ns.remove(p), tail[l - 1].id));
                        let w = choose|w: int|
                            0 <= w < ns.remove(p).len() && ns.remove(p)[w].id == tail[l - 1].id;
                        assert(ns.remove(p)[w].id != ns[p].id);
                    } else {
                        assert(r[j] == tail[j - 1]);
                        assert(r[l] == tail[l - 1]);
                    }
                }
                assert forall|k: int| 0 <= k < r.len() implies contains_id(
                    ns,
                    (#[trigger] r[k]).id,
                ) by {
                    if k == 0 {
                        assert(r[0] == ns[p]);
                    } else {
                        assert(r[k] == tail[k - 1]);
                        assert(contains_id(ns.remove(p), tail[k - 1].id));
                        let w = choose|w: int|
                            0 <= w < ns.remove(p).len() && ns.remove(p)[w].id == tail[k - 1].id;
                        assert(contains_id(ns, ns.remove(p)[w].id));
                    }
                }
            },
        }
    }
}

impl NoteStore {
    /// The position of the first note with the given id, if any.
    #[verifier::loop_isolation(false)]
    fn find_pos(&self, id: u32) -> (r: Option<usize>)
        ensures
            r is Some <==> spec_find(views(self.notes@), id) is Some,
            r matches Some(p) ==> spec_find(views(self.notes@), id) == Some(p as int),
    {
        let ghost vs = views(self.notes@);
        proof {
            lemma_find_characterization(vs, id);
        }
        let mut k: usize = 0;
        while k < self.notes.len()
            invariant
                k <= self.notes.len(),
                forall|q: int| 0 <= q < k ==> (#[trigger] vs[q]).id != id,
            decreases self.notes.len() - k,
        {
            if self.notes[k].id == id {
                proof {
                    assert(vs[k as int].id == id);
                    match spec_find(vs, id) {
                        Some(p) => {
                            if p < k as int {
                                assert(vs[p].id != id);
                            }
                            if p > k as int {
                                assert(vs[k as int].id != id);
                            }
                        },
                        None => {
                            assert(contains_id(vs, id));
                        },
                    }
                }
                return Some(k);
            }
            k = k + 1;
        }
        proof {
            if spec_find(vs, id) is Some {
                let p = spec_find(vs, id)->Some_0;
                assert(vs[p].id != id);
            }
        }
        None
    }

    /// Puts the notes whose ids appear in `ordered_ids` first, in that
    /// order (first occurrence counts; unknown ids are ignored), and the
    /// remaining notes after them in their prior relative order.
    #[verifier::loop_isolation(false)]
    pub fn reorder(&mut self, ordered_ids: &Vec<u32>)
        requires
            old(self).wf(),
        ensures
            final(self).wf(),
            views(final(self).notes@) == spec_reorder(views(old(self).notes@), ordered_ids@),
            final(self).next_id == old(self).next_id,
    {
        let ghost old_views = views(self.notes@);
        let ghost all_ids = ordered_ids@;
        let mut picked: Vec<Note> = Vec::new();
        proof {
            assert(all_ids.skip(0) =~= all_ids);
            assert(views(picked@) =~= Seq::<NoteView>::empty());
            assert(Seq::<NoteView>::empty() + spec_reorder(old_views, all_ids) =~= spec_reorder(
                old_views,
                all_ids,
            ));
        }
        let mut i: usize = 0;
        while i < ordered_ids.len()
            invariant
                i <= ordered_ids.len(),
                self.next_id == old(self).next_id,
                ids_unique(views(self.notes@)),
                views(picked@) + spec_reorder(views(self.notes@), all_ids.skip(i as int))
                    == spec_reorder(old_views, all_ids),
            decreases ordered_ids.len() - i,
        {
            let ghost rem = views(self.notes@);
            let ghost ids_left = all_ids.skip(i as int);
            proof {
                assert(ids_left[0] == all_ids[i as int]);
                assert(ids_left.drop_first() =~= all_ids.skip(i as int + 1));
            }
            let id = ordered_ids[i];
            match self.find_pos(id) {
                Some(pos) => {
                    proof {
                        lemma_find_characterization(rem, id);
                        lemma_remove_keeps(rem, pos as int);
                        lemma_views_remove(self.notes@, pos as int);
                    }
                    let note = self.notes.remove(pos);
                    let ghost nv = note@;
                    proof {
                        lemma_views_push(picked@, note);
                        assert(nv == rem[pos as int]);
                    }
                    picked.push(note);
                    proof {
                        assert(views(picked@) + spec_reorder(
                            views(self.notes@),
                            all_ids.skip(i as int + 1),
                        ) =~= spec_reorder(old_views, all_ids));
                    }
                },
                None => {
                    proof {
                        assert(spec_reorder(rem, ids_left) == spec_reorder(
                            rem,
                            all_ids.skip(i as int + 1),
                        ));
                    }
                },
            }
            i = i + 1;
        }
        proof {
            assert(all_ids.skip(all_ids.len() as int) =~= Seq::<u32>::empty());
            assert(spec_reorder(views(self.notes@), Seq::<u32>::empty()) == views(self.notes@));
        }
        let ghost rem_notes = self.notes@;
        let ghost rem_views = views(self.notes@);
        let mut rest = self.notes.split_off(0);
        proof {
            assert(rest@ =~= rem_notes);
        }
        let ghost picked_notes = picked@;
        let ghost picked_views = views(picked@);
        picked.append(&mut rest);
        proof {
            assert(picked@ == picked_notes + rem_notes);
            lemma_views_append(picked_notes, rem_notes);
        }
        self.notes = picked;
        proof {
            assert(views(self.notes@) == picked_views + rem_views);
            lemma_reorder_wf(old_views, all_ids);
            assert(views(self.notes@) == spec_reorder(old_views, all_ids));
            assert forall|k: int| 0 <= k < views(self.notes@).len() implies (#[trigger] views(
                self.notes@,
            )[k]).id < self.next_id by {
                assert(views(self.notes@)[k] == spec_reorder(old_views, all_ids)[k]);
                assert(contains_id(old_views, spec_reorder(old_views, all_ids)[k].id));
                let w = choose|w: int|
                    0 <= w < old_views.len() && old_views[w].id == spec_reorder(
                        old_views,
                        all_ids,
                    )[k].id;
                assert(old_views[w].id < old(self).next_id);
            }
        }
    }
}

} // verus!

verus! {

/// Mapping note models over a concatenation concatenates the models.
proof fn lemma_views_append(a: Seq<Note>, b: Seq<Note>)
    ensures
        views(a + b) == views(a) + views(b),
{
    assert forall|i: int| 0 <= i < a.len() + b.len() implies views(a + b)[i] == (views(a) + views(
        b,
    ))[i] by {
        if i < a.len() {
            assert((a + b)[i] == a[i]);
        } else {
            assert((a + b)[i] == b[i - a.len()]);
        }
    }
    assert(views(a + b) =~= views(a) + views(b));
}

} // verus!

verus! {

/// The largest id in a collection, or 0 when it is empty.
pub open spec fn spec_max_id(ns: Seq<NoteView>) -> int
    decreases ns.len(),
{
    if ns.len() == 0 {
        0
    } else if spec_max_id(ns.drop_last()) >= ns.last().id {
        spec_max_id(ns.drop_last())
    } else {
        ns.last().id as int
    }
}

/// Every id lies at or below the collection's largest id, which is not
/// negative.
pub proof fn lemma_max_id_bound(ns: Seq<NoteView>)
    ensures
        0 <= spec_max_id(ns),
        forall|k: int| 0 <= k < ns.len() ==> (#[trigger] ns[k]).id <= spec_max_id(ns),
    decreases ns.len(),
{
    if ns.len() > 0 {
        lemma_max_id_bound(ns.drop_last());
        assert forall|k: int| 0 <= k < ns.len() implies (#[trigger] ns[k]).id <= spec_max_id(
            ns,
        ) by {
            if k < ns.len() - 1 {
                assert(ns.drop_last()[k] == ns[k]);
            }
        }
    }
}

/// In a non-empty collection some note carries the largest id.
pub proof fn lemma_max_id_attained(ns: Seq<NoteView>)
    requires
        ns.len() >= 1,
    ensures
        exists|k: int| 0 <= k < ns.len() && (#[trigger] ns[k]).id == spec_max_id(ns),
    decreases ns.len(),
{
    if ns.len() == 1 {
        assert(ns.drop_last().len() == 0);
        assert(spec_max_id(ns.drop_last()) == 0);
        assert(ns.last() == ns[0]);
        assert(ns[0].id == spec_max_id(ns));
    } else if spec_max_id(ns.drop_last()) >= ns.last().id {
        lemma_max_id_attained(ns.drop_last());
        let w = choose|w: int|
            0 <= w < ns.drop_last().len() && ns.drop_last()[w].id == spec_max_id(ns.drop_last());
        assert(ns[w] == ns.drop_last()[w]);
        assert(ns[w].id == spec_max_id(ns));
    } else {
        assert(ns[ns.len() - 1].id == spec_max_id(ns));
    }
}

/// A collection a store may hold: ids unique, with room above the
/// largest id for the ids still to be assigned.
pub open spec fn loaded_ok(ns: Seq<NoteView>) -> bool {
    ids_unique(ns) && spec_max_id(ns) < u32::MAX
}

impl NoteStore {
    /// Whether the collection's ids are unique.
    #[verifier::loop_isolation(false)]
    fn check_ids_unique(notes: &Vec<Note>) -> (r: bool)
        ensures
            r == ids_unique(views(notes@)),
    {
        let ghost vs = views(notes@);
        let mut j: usize = 0;
        while j < notes.len()
            invariant
                j <= notes.len(),
                forall|a: int, b: int| 0 <= a < b < vs.len() && a < j ==> vs[a].id != vs[b].id,
            decreases notes.len() - j,
        {
            let mut l: usize = j + 1;
            while l < notes.len()
                invariant
                    j < l || l == j + 1,
                    j + 1 <= l <= notes.len(),
                    forall|b: int| j < b < l ==> vs[j as int].id != (#[trigger] vs[b]).id,
                decreases notes.len() - l,
            {
                if notes[j].id == notes[l].id {
                    proof {
                        assert(vs[j as int].id == vs[l as int].id);
                    }
                    return false;
                }
                l = l + 1;
            }
            j = j + 1;
        }
        true
    }

    /// The largest id in the collection, or 0 when it is empty.
    #[verifier::loop_isolation(false)]
    fn max_id(notes: &Vec<Note>) -> (m: u32)
        ensures
            m == spec_max_id(views(notes@)),
    {
        let ghost vs = views(notes@);
        let mut m: u32 = 0;
        let mut k: usize = 0;
        while k < notes.len()
            invariant
                k <= notes.len(),
                m == spec_max_id(vs.take(k as int)),
            decreases notes.len() - k,
        {
            proof {
                assert(vs.take(k as int + 1).drop_last() =~= vs.take(k as int));
                assert(vs.take(k as int + 1).last() == vs[k as int]);
                assert(vs[k as int] == notes@[k as int]@);
            }
            if notes[k].id > m {
                m = notes[k].id;
            }
            k = k + 1;
        }
        proof {
            assert(vs.take(vs.len() as int) =~= vs);
        }
        m
    }

    /// Builds the store the process starts with: the collection read from
    /// the persisted document, or an empty collection when there is no
    /// document, it cannot be read back, or it breaks the id invariants;
    /// the id counter resumes one above the largest loaded id, or at 1.
    pub fn startup(doc: Option<&Vec<char>>) -> (s: NoteStore)
        ensures
            s.wf(),
            match doc {
                None => views(s.notes@) == Seq::<NoteView>::empty() && s.next_id == 1,
                Some(d) => match crate::codec::spec_parse_document(d@) {
                    None => views(s.notes@) == Seq::<NoteView>::empty() && s.next_id == 1,
                    Some(ns) => if loaded_ok(ns) {
                        views(s.notes@) == ns && s.next_id == spec_max_id(ns) + 1
                    } else {
                        views(s.notes@) == Seq::<NoteView>::empty() && s.next_id == 1
                    },
                },
            },
    {
        match doc {
            None => Self::new(),
            Some(d) => {
                match crate::codec::parse_notes(d) {
                    None => Self::new(),
                    Some(notes) => {
                        let ghost ns = views(notes@);
                        if !Self::check_ids_unique(&notes) {
                            return Self::new();
                        }
                        let m = Self::max_id(&notes);
                        if m == u32::MAX {
                            return Self::new();
                        }
                        let s = NoteStore { notes, next_id: m + 1 };
                        proof {
                            lemma_max_id_bound(ns);
                        }
                        s
                    },
                }
            },
        }
    }

    /// The document that persists the collection.
    pub fn to_document(&self) -> (r: Vec<char>)
        ensures
            r@ == crate::codec::spec_encode_notes(views(self.notes@)),
    {
        crate::codec::encode_notes(&self.notes)
    }
}

} // verus!

verus! {

/// A filter that accepts every element returns the sequence unchanged.
proof fn lemma_filter_all(s: Seq<NoteView>, pred: spec_fn(NoteView) -> bool)
    requires
        forall|k: int| 0 <= k < s.len() ==> pred(#[trigger] s[k]),
    ensures
        s.filter(pred) == s,
    decreases s.len(),
{
    reveal(Seq::filter);
    if s.len() > 0 {
        assert forall|k: int| 0 <= k < s.drop_last().len() implies pred(
            #[trigger] s.drop_last()[k],
        ) by {
            assert(s.drop_last()[k] == s[k]);
        }
        lemma_filter_all(s.drop_last(), pred);
        assert(pred(s[s.len() - 1]));
        assert(s.filter(pred) =~= s);
    }
}

/// A filter that rejects every element returns the empty sequence.
proof fn lemma_filter_none(s: Seq<NoteView>, pred: spec_fn(NoteView) -> bool)
    requires
        forall|k: int| 0 <= k < s.len() ==> !pred(#[trigger] s[k]),
    ensures
        s.filter(pred) == Seq::<NoteView>::empty(),
    decreases s.len(),
{
    reveal(Seq::filter);
    if s.len() > 0 {
        assert forall|k: int| 0 <= k < s.drop_last().len() implies !pred(
            #[trigger] s.drop_last()[k],
        ) by {
            assert(s.drop_last()[k] == s[k]);
        }
        lemma_filter_none(s.drop_last(), pred);
        assert(!pred(s[s.len() - 1]));
        assert(s.filter(pred) =~= Seq::<NoteView>::empty());
    }
}

/// Two predicates that agree on a sequence's elements filter it alike.
proof fn lemma_filter_congruent(
    s: Seq<NoteView>,
    p1: spec_fn(NoteView) -> bool,
    p2: spec_fn(NoteView) -> bool,
)
    requires
        forall|k: int| 0 <= k < s.len() ==> p1(#[trigger] s[k]) == p2(s[k]),
    ensures
        s.filter(p1) == s.filter(p2),
    decreases s.len(),
{
    reveal(Seq::filter);
    if s.len() > 0 {
        assert forall|k: int| 0 <= k < s.drop_last().len() implies p1(
            #[trigger] s.drop_last()[k],
        ) == p2(s.drop_last()[k]) by {
            assert(s.drop_last()[k] == s[k]);
        }
        lemma_filter_congruent(s.drop_last(), p1, p2);
        assert(p1(s[s.len() - 1]) == p2(s[s.len() - 1]));
    }
}

/// The id that `add` assigns, the store's counter, exceeds every id in
/// the collection, including ids loaded from a saved document.
pub proof fn lemma_add_id_fresh(s: NoteStore)
    requires
        s.wf(),
    ensures
        forall|k: int|
            0 <= k < views(s.notes@).len() ==> (#[trigger] views(s.notes@)[k]).id < s.next_id,
{
}

/// Deleting an id that no note carries leaves the collection unchanged.
pub proof fn lemma_delete_absent_is_noop(ns: Seq<NoteView>, id: u32)
    requires
        !contains_id(ns, id),
    ensures
        spec_delete(ns, id) == ns,
{
    assert forall|k: int| 0 <= k < ns.len() implies (|n: NoteView| n.id != id)(
        #[trigger] ns[k],
    ) by {
        if ns[k].id == id {
            assert(contains_id(ns, id));
        }
    }
    lemma_filter_all(ns, |n: NoteView| n.id != id);
}

/// Toggling the pinned flag twice returns every note to its original
/// state.
pub proof fn lemma_toggle_pin_involution(ns: Seq<NoteView>, id: u32)
    ensures
        spec_toggle(spec_toggle(ns, id), id) == ns,
{
    let once = spec_toggle(ns, id);
    let twice = spec_toggle(once, id);
    assert forall|k: int| 0 <= k < ns.len() implies twice[k] == ns[k] by {
        assert(once[k] == if ns[k].id == id {
            NoteView { id: ns[k].id, content: ns[k].content, pinned: !ns[k].pinned }
        } else {
            ns[k]
        });
    }
    assert(twice =~= ns);
}

/// When no note is pinned, the display order is the collection's order.
pub proof fn lemma_pin_order_all_unpinned(ns: Seq<NoteView>)
    requires
        forall|k: int| 0 <= k < ns.len() ==> !(#[trigger] ns[k]).pinned,
    ensures
        spec_pin_order(ns) == ns,
{
    lemma_filter_none(ns, |n: NoteView| n.pinned);
    lemma_filter_all(ns, |n: NoteView| !n.pinned);
    assert(spec_pin_order(ns) =~= ns);
}

/// Reordering by distinct ids that are all present puts exactly those
/// notes first, in the given order, and the notes whose ids were not
/// given after them in their prior relative order.
pub proof fn lemma_reorder_permutation(ns: Seq<NoteView>, ids: Seq<u32>)
    requires
        ids_unique(ns),
        ids.no_duplicates(),
        forall|j: int| 0 <= j < ids.len() ==> contains_id(ns, #[trigger] ids[j]),
    ensures
        spec_reorder(ns, ids).len() == ns.len(),
        ids.len() <= ns.len(),
        forall|j: int|
            0 <= j < ids.len() ==> (#[trigger] spec_reorder(ns, ids)[j]).id == ids[j]
                && ns.contains(spec_reorder(ns, ids)[j]),
        spec_reorder(ns, ids).skip(ids.len() as int) == ns.filter(
            |n: NoteView| !ids.contains(n.id),
        ),
    decreases ids.len(),
{
    let r = spec_reorder(ns, ids);
    if ids.len() == 0 {
        assert(r.skip(0) =~= ns);
        assert forall|k: int| 0 <= k < ns.len() implies (|n: NoteView| !ids.contains(n.id))(
            #[trigger] ns[k],
        ) by {
            if ids.contains(ns[k].id) {
                let w = choose|w: int| 0 <= w < ids.len() && ids[w] == ns[k].id;
            }
        }
        lemma_filter_all(ns, |n: NoteView| !ids.contains(n.id));
    } else {
        let id0 = ids[0];
        let rest_ids = ids.drop_first();
        lemma_find_characterization(ns, id0);
        assert(contains_id(ns, id0));
        let p = spec_find(ns, id0)->Some_0;
        assert(ns[p].id == id0);
        let removed = ns.remove(p);
        lemma_remove_keeps(ns, p);
        ns.remove_ensures(p);
        assert(rest_ids.no_duplicates()) by {
            assert forall|a: int, b: int|
                0 <= a < rest_ids.len() && 0 <= b < rest_ids.len() && a != b implies rest_ids[a]
                != rest_ids[b] by {
                assert(rest_ids[a] == ids[a + 1]);
                assert(rest_ids[b] == ids[b + 1]);
            }
        }
        assert forall|j: int| 0 <= j < rest_ids.len() implies contains_id(
            removed,
            #[trigger] rest_ids[j],
        ) by {
            assert(rest_ids[j] == ids[j + 1]);
            assert(contains_id(ns, ids[j + 1]));
            let w = choose|w: int| 0 <= w < ns.len() && ns[w].id == ids[j + 1];
            assert(ids[j + 1] != id0);
            assert(w != p);
            if w < p {
                assert(removed[w] == ns[w]);
            } else {
                assert(removed[w - 1] == ns[w]);
            }
        }
        lemma_reorder_permutation(removed, rest_ids);
        let tail = spec_reorder(removed, rest_ids);
        assert(r == seq![ns[p]] + tail);
        assert forall|j: int| 0 <= j < ids.len() implies (#[trigger] r[j]).id == ids[j]
            && ns.contains(r[j]) by {
            if j == 0 {
                assert(r[0] == ns[p]);
            } else {
                assert(r[j] == tail[j - 1]);
                assert(tail[j - 1].id == rest_ids[j - 1]);
                assert(rest_ids[j - 1] == ids[j]);
                assert(removed.contains(tail[j - 1]));
                let w = choose|w: int| 0 <= w < removed.len() && removed[w] == tail[j - 1];
                if w < p {
                    assert(removed[w] == ns[w]);
                } else {
                    assert(removed[w] == ns[w + 1]);
                }
            }
        }
        let pred = |n: NoteView| !ids.contains(n.id);
        let pred_rest = |n: NoteView| !rest_ids.contains(n.id);
        assert(r.skip(ids.len() as int) =~= tail.skip(rest_ids.len() as int)) by {
            assert forall|m: int| 0 <= m < r.len() - ids.len() implies r.skip(
                ids.len() as int,
            )[m] == tail.skip(rest_ids.len() as int)[m] by {
                assert(r.skip(ids.len() as int)[m] == r[ids.len() + m]);
                assert(r[ids.len() + m] == tail[ids.len() - 1 + m]);
                assert(tail.skip(rest_ids.len() as int)[m] == tail[rest_ids.len() + m]);
            }
        }
        let sub1 = ns.subrange(0, p);
        let sub2 = ns.subrange(p + 1, ns.len() as int);
        assert(removed == sub1 + sub2);
        Seq::filter_distributes_over_add(sub1, sub2, pred_rest);
        Seq::filter_distributes_over_add(sub1, sub2, pred);
        assert forall|k: int| 0 <= k < sub1.len() implies pred_rest(#[trigger] sub1[k]) == pred(
            sub1[k],
        ) by {
            assert(sub1[k] == ns[k]);
            assert(ns[k].id != id0);
            lemma_contains_shift(ids, ns[k].id);
        }
        assert forall|k: int| 0 <= k < sub2.len() implies pred_rest(#[trigger] sub2[k]) == pred(
            sub2[k],
        ) by {
            assert(sub2[k] == ns[p + 1 + k]);
            assert(ns[p + 1 + k].id != id0);
            lemma_contains_shift(ids, ns[p + 1 + k].id);
        }
        lemma_filter_congruent(sub1, pred_rest, pred);
        lemma_filter_congruent(sub2, pred_rest, pred);
        assert(ns =~= sub1 + seq![ns[p]] + sub2);
        Seq::filter_distributes_over_add(sub1 + seq![ns[p]], sub2, pred);
        Seq::filter_distributes_over_add(sub1, seq![ns[p]], pred);
        assert(!pred(ns[p]));
        lemma_filter_none(seq![ns[p]], pred);
        assert(ns.filter(pred) =~= sub1.filter(pred) + sub2.filter(pred));
        assert(removed.filter(pred_rest) =~= sub1.filter(pred_rest) + sub2.filter(pred_rest));
        assert(r.skip(ids.len() as int) == ns.filter(pred));
    }
}

/// An id other than the head of `ids` occurs in `ids` exactly when it
/// occurs in the remaining ids.
proof fn lemma_contains_shift(ids: Seq<u32>, id: u32)
    requires
        ids.len() >= 1,
        id != ids[0],
    ensures
        ids.contains(id) == ids.drop_first().contains(id),
{
    if ids.contains(id) {
        let w = choose|w: int| 0 <= w < ids.len() && ids[w] == id;
        assert(w != 0);
        assert(ids.drop_first()[w - 1] == id);
        assert(ids.drop_first().contains(id));
    }
    if ids.drop_first().contains(id) {
        let w = choose|w: int| 0 <= w < ids.drop_first().len() && ids.drop_first()[w] == id;
        assert(ids[w + 1] == id);
        assert(ids.contains(id));
    }
}

/// Writing the collection out and reading it back gives the same
/// collection: the document round trip at the store level.
pub proof fn lemma_save_load_round_trip(s: NoteStore)
    requires
        s.wf(),
    ensures
        crate::codec::spec_parse_document(crate::codec::spec_encode_notes(views(s.notes@)))
            == Some(views(s.notes@)),
        loaded_ok(views(s.notes@)),
{
    let ns = views(s.notes@);
    crate::codec::lemma_document_round_trip(ns);
    if ns.len() == 0 {
        assert(spec_max_id(ns) == 0);
    } else {
        lemma_max_id_attained(ns);
        let w = choose|w: int| 0 <= w < ns.len() && (#[trigger] ns[w]).id == spec_max_id(ns);
        assert(ns[w].id < s.next_id);
    }
}

} // verus!
