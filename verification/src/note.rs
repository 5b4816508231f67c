//! The note entity and its mathematical model.

use vstd::prelude::*;

verus! {

/// One user-authored text item. The id is assigned by the store and is
/// unique within it; the content is opaque text (it may be empty); the
/// pinned flag starts out false.
#[derive(Debug, PartialEq, Eq)]
pub struct Note {
    pub id: u32,
    pub content: Vec<char>,
    pub pinned: bool,
}

/// The model of a note: the same three fields, with the content as a
/// sequence of characters.
pub struct NoteView {
    pub id: u32,
    pub content: Seq<char>,
    pub pinned: bool,
}

impl View for Note {
    type V = NoteView;

    open spec fn view(&self) -> NoteView {
        NoteView { id: self.id, content: self.content@, pinned: self.pinned }
    }
}

/// The models of a sequence of notes.
pub open spec fn views(s: Seq<Note>) -> Seq<NoteView> {
    s.map_values(|n: Note| n@)
}

/// Some note in `s` has the id `id`.
pub open spec fn contains_id(s: Seq<NoteView>, id: u32) -> bool {
    exists|k: int| 0 <= k < s.len() && s[k].id == id
}

/// No two notes in `s` share an id.
pub open spec fn ids_unique(s: Seq<NoteView>) -> bool {
    forall|j: int, k: int| 0 <= j < k < s.len() ==> s[j].id != s[k].id
}

impl Note {
    /// A copy of this note with the same model.
    pub fn duplicate(&self) -> (r: Note)
        ensures
            r@ == self@,
    {
        let content = clone_chars(&self.content);
        Note { id: self.id, content, pinned: self.pinned }
    }
}

/// A copy of a character vector with the same view.
pub fn clone_chars(v: &Vec<char>) -> (r: Vec<char>)
    ensures
        r@ == v@,
{
    let r = v.clone();
    proof {
        assert forall|i: int| 0 <= i < v@.len() implies r@[i] == v@[i] by {
            assert(cloned::<char>(v@[i], r@[i]));
        }
        assert(r@ =~= v@);
    }
    r
}

} // verus!
