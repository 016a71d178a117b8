//! The note store: an ordered sequence of notes whose identifiers are kept
//! contiguous, `1..=N`, by reindexing after every removal. An id is the
//! note's current 1-based position, not a stable key.

use vstd::prelude::*;
use vstd::string::StringExecFns;

use crate::clock::current_timestamp;
use crate::text::{is_blank, lemma_blank_iff_trim_empty, trim, trim_spec};

verus! {

/// The mathematical content of one note.
pub ghost struct NoteView {
    pub id: u32,
    pub body: Seq<char>,
    pub timestamp: Seq<char>,
}

/// One note: a 1-based identifier, a non-blank trimmed body, and the
/// creation timestamp as text.
#[derive(Debug)]
pub struct Note {
    pub id: u32,
    pub body: String,
    pub timestamp: String,
}

impl View for Note {
    type V = NoteView;

    open spec fn view(&self) -> NoteView {
        NoteView { id: self.id, body: self.body@, timestamp: self.timestamp@ }
    }
}

impl Note {
    /// An equal-valued copy of the note.
    pub fn duplicate(&self) -> (r: Note)
        ensures
            r@ == self@,
    {
        Note { id: self.id, body: self.body.clone(), timestamp: self.timestamp.clone() }
    }
}

/// Why a store operation was refused: an empty (or whitespace-only) body on
/// add, or an identifier outside `1..=N` on remove.
#[derive(Clone, Copy, Debug, PartialEq, Eq, Structural)]
pub enum NoteError {
    ValidationError,
    NotFoundError,
}

/// The views of a sequence of notes, in order.
pub open spec fn views_of(s: Seq<Note>) -> Seq<NoteView> {
    s.map_values(|n: Note| n@)
}

/// Ids are exactly `1..=N` by position.
pub open spec fn contiguous_ids(v: Seq<NoteView>) -> bool {
    forall|i: int| 0 <= i < v.len() ==> (#[trigger] v[i]).id as int == i + 1
}

/// `s` with every id replaced by the note's 1-based position.
pub open spec fn reindexed(s: Seq<NoteView>) -> Seq<NoteView> {
    Seq::new(
        s.len(),
        |i: int| NoteView { id: (i + 1) as u32, body: s[i].body, timestamp: s[i].timestamp },
    )
}

/// The in-memory sequence of notes.
pub struct NoteStore {
    notes: Vec<Note>,
}

impl View for NoteStore {
    type V = Seq<NoteView>;

    closed spec fn view(&self) -> Seq<NoteView> {
        views_of(self.notes@)
    }
}

impl NoteStore {
    /// Ids are exactly `1..=N` by position.
    pub open spec fn wf(&self) -> bool {
        contiguous_ids(self@)
    }

    /// An empty store.
    pub fn new() -> (r: NoteStore)
        ensures
            r@ == Seq::<NoteView>::empty(),
            r.wf(),
    {
        let notes: Vec<Note> = Vec::new();
        proof {
            assert(views_of(notes@) =~= Seq::<NoteView>::empty());
        }
        NoteStore { notes }
    }

    /// Wraps an already-built sequence of notes, as the codec produces one.
    pub(crate) fn from_vec(notes: Vec<Note>) -> (r: NoteStore)
        ensures
            r@ == views_of(notes@),
    {
        NoteStore { notes }
    }

    /// How many notes are held.
    pub fn len(&self) -> (r: usize)
        ensures
            r == self@.len(),
    {
        self.notes.len()
    }

    /// All notes in current order; an empty slice is an ordinary result.
    pub fn list(&self) -> (r: &Vec<Note>)
        ensures
            views_of(r@) == self@,
    {
        &self.notes
    }

    /// In a well-formed store, the note at position `i` of `list()` carries
    /// id `i + 1`; with `add`'s contract this gives that after any sequence
    /// of adds the store holds one note per add and the nth added note has
    /// id n.
    pub proof fn lemma_ids_match_positions(&self)
        requires
            self.wf(),
        ensures
            forall|i: int| 0 <= i < self@.len() ==> (#[trigger] self@[i]).id as int == i + 1,
    {
    }

    /// Reindexing keeps every note's text and order and only renumbers:
    /// with `remove`'s contract this gives that removing id `k` from a
    /// store of length `N` leaves `N - 1` notes whose ids are exactly
    /// `1..=N-1`, the remaining notes keeping their relative order.
    pub proof fn lemma_reindexed_preserves_content(s: Seq<NoteView>)
        requires
            s.len() <= u32::MAX,
        ensures
            reindexed(s).len() == s.len(),
            forall|i: int| 0 <= i < s.len() ==> (#[trigger] reindexed(s)[i]).id as int == i + 1,
            forall|i: int| 0 <= i < s.len() ==> (#[trigger] reindexed(s)[i]).body == s[i].body,
            forall|i: int|
                0 <= i < s.len() ==> (#[trigger] reindexed(s)[i]).timestamp == s[i].timestamp,
    {
    }

    /// Appends a note with the given timestamp text. Fails with
    /// `ValidationError`, leaving the store unchanged, exactly when the body
    /// is empty or whitespace-only; on success the new note carries the
    /// trimmed body and id `N + 1`.
    pub fn add_with_timestamp(&mut self, body: &str, timestamp: String) -> (r: Result<
        Note,
        NoteError,
    >)
        requires
            old(self).wf(),
            old(self)@.len() < u32::MAX,
        ensures
            final(self).wf(),
            match r {
                Ok(n) => !is_blank(body@) && final(self)@ == old(self)@.push(n@) && n@.id as int
                    == old(self)@.len() + 1 && n@.body == trim_spec(body@) && n@.timestamp
                    == timestamp@,
                Err(e) => e == NoteError::ValidationError && is_blank(body@) && final(self)@
                    == old(self)@,
            },
    {
        let t = trim(body);
        proof {
            lemma_blank_iff_trim_empty(body@);
        }
        if t.unicode_len() == 0 {
            return Err(NoteError::ValidationError);
        }
        let id = (self.notes.len() + 1) as u32;
        let note = Note { id, body: String::from_str(t), timestamp };
        let created = note.duplicate();
        let ghost before = self.notes@;
        self.notes.push(note);
        proof {
            assert(views_of(before.push(note)) =~= views_of(before).push(note@));
        }
        Ok(created)
    }

    /// Appends a note stamped with the current local time; the rest is as
    /// `add_with_timestamp`. Nothing is promised of the timestamp text,
    /// which the clock decides.
    pub fn add(&mut self, body: &str) -> (r: Result<Note, NoteError>)
        requires
            old(self).wf(),
            old(self)@.len() < u32::MAX,
        ensures
            final(self).wf(),
            match r {
                Ok(n) => !is_blank(body@) && final(self)@ == old(self)@.push(n@) && n@.id as int
                    == old(self)@.len() + 1 && n@.body == trim_spec(body@),
                Err(e) => e == NoteError::ValidationError && is_blank(body@) && final(self)@
                    == old(self)@,
            },
    {
        let stamp = current_timestamp();
        self.add_with_timestamp(body, stamp)
    }

    /// Removes the note with identifier `id`. Fails with `NotFoundError`,
    /// leaving the store unchanged, exactly when `id` lies outside `1..=N`;
    /// on success returns the removed note with its pre-removal values, and
    /// every later note shifts down one position and is renumbered, so ids
    /// are again exactly `1..=N-1` in the original relative order.
    pub fn remove(&mut self, id: u32) -> (r: Result<Note, NoteError>)
        requires
            old(self).wf(),
        ensures
            final(self).wf(),
            match r {
                Ok(n) => 1 <= id as int <= old(self)@.len() && n@ == old(self)@[id as int - 1]
                    && final(self)@ == reindexed(old(self)@.remove(id as int - 1)),
                Err(e) => e == NoteError::NotFoundError && !(1 <= id as int <= old(self)@.len())
                    && final(self)@ == old(self)@,
            },
    {
        if id < 1 || id as usize > self.notes.len() {
            return Err(NoteError::NotFoundError);
        }
        let idx = (id - 1) as usize;
        let ghost before = self.notes@;
        let removed = self.notes.remove(idx);
        let n = self.notes.len();
        proof {
            assert(old(self)@.len() <= u32::MAX) by {
                if old(self)@.len() > 0 {
                    assert(old(self)@[old(self)@.len() - 1].id as int == old(self)@.len());
                }
            }
            assert forall|k: int| 0 <= k < idx implies (#[trigger] self.notes@[k])@ == (NoteView {
                id: (k + 1) as u32,
                body: before.remove(idx as int)[k]@.body,
                timestamp: before.remove(idx as int)[k]@.timestamp,
            }) by {
                assert(before.remove(idx as int)[k] == before[k]);
                assert(old(self)@[k] == before[k]@);
                assert(old(self)@[k].id as int == k + 1);
            }
        }
        let mut i: usize = idx;
        while i < n
            invariant
                idx <= i <= n,
                n == self.notes@.len(),
                n + 1 <= u32::MAX,
                self.notes@.len() == before.remove(idx as int).len(),
                forall|k: int|
                    i <= k < n ==> #[trigger] self.notes@[k] == before.remove(idx as int)[k],
                forall|k: int|
                    0 <= k < i ==> (#[trigger] self.notes@[k])@ == (NoteView {
                        id: (k + 1) as u32,
                        body: before.remove(idx as int)[k]@.body,
                        timestamp: before.remove(idx as int)[k]@.timestamp,
                    }),
            decreases n - i,
        {
            self.notes[i].id = (i + 1) as u32;
            i = i + 1;
        }
        proof {
            assert(final(self)@ =~= reindexed(old(self)@.remove(id as int - 1)));
            assert(removed@ == old(self)@[id as int - 1]);
        }
        Ok(removed)
    }
}

} // verus!
