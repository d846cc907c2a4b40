//! Store of learned reference spectra, one per note.
//!
//! Entries are kept sorted by note with unique keys, so the store has a
//! single canonical shape for any mapping — learning a note again
//! overwrites its old template, and the byte encoding of a store is
//! canonical, which makes the save/load round trip exact.

use vstd::prelude::*;
use crate::similarity::bounded_spectrum;

verus! {

/// Well-formed entry sequence: notes strictly increasing (hence unique)
/// and in MIDI range, and every template a scoreable spectrum.
pub open spec fn entries_wf(s: Seq<TemplateEntry>) -> bool {
    &&& forall|i: int, j: int| 0 <= i < j < s.len() ==> s[i].note < s[j].note
    &&& forall|i: int| 0 <= i < s.len() ==> s[i].note <= 127 && bounded_spectrum(s[i].spectrum@)
}

/// Each note of a well-formed entry sequence is at least its index.
pub proof fn lemma_note_ge_index(s: Seq<TemplateEntry>, i: int)
    requires
        entries_wf(s),
        0 <= i < s.len(),
    ensures
        s[i].note >= i,
    decreases i,
{
    if i > 0 {
        lemma_note_ge_index(s, i - 1);
        assert(s[i - 1].note < s[i].note);
    }
}

/// Strictly increasing notes in `[0, 127]` bound a store at 128 entries.
pub proof fn lemma_entries_len_bound(s: Seq<TemplateEntry>)
    requires
        entries_wf(s),
    ensures
        s.len() <= 128,
{
    if s.len() > 128 {
        lemma_note_ge_index(s, 128);
        assert(s[128].note <= 127);
        assert(false);
    }
}

/// One learned template: a note identifier and its reference spectrum.
pub struct TemplateEntry {
    /// MIDI note number, in `[0, 127]`.
    pub note: u8,
    /// Reference magnitude spectrum captured when the note was learned.
    pub spectrum: Vec<u32>,
}

/// Mapping from note identifier to reference spectrum.
pub struct TemplateStore {
    /// Entries sorted by strictly increasing note.
    pub entries: Vec<TemplateEntry>,
}

impl TemplateStore {
    /// Well-formedness: notes strictly increasing (hence unique) and in
    /// MIDI range, and every template a scoreable spectrum.
    pub open spec fn wf(self) -> bool {
        entries_wf(self.entries@)
    }

    /// Whether a template is stored for `note`.
    pub open spec fn has_note(self, note: u8) -> bool {
        exists|i: int| 0 <= i < self.entries@.len() && self.entries@[i].note == note
    }

    /// Index of the entry holding `note` (meaningful when `has_note`).
    pub open spec fn note_index(self, note: u8) -> int {
        choose|i: int| 0 <= i < self.entries@.len() && self.entries@[i].note == note
    }

    /// The stored template for `note` (meaningful when `has_note`).
    pub open spec fn template_of(self, note: u8) -> Seq<u32> {
        self.entries@[self.note_index(note)].spectrum@
    }

    /// In a well-formed store, each note appears at exactly one index.
    pub proof fn lemma_note_index(self, i: int)
        requires
            self.wf(),
            0 <= i < self.entries@.len(),
        ensures
            self.has_note(self.entries@[i].note),
            self.note_index(self.entries@[i].note) == i,
    {
        let note = self.entries@[i].note;
        assert(self.has_note(note));
        let j = self.note_index(note);
        if i < j {
            assert(self.entries@[i].note < self.entries@[j].note);
        }
        if j < i {
            assert(self.entries@[j].note < self.entries@[i].note);
        }
    }

    /// Creates an empty store: no templates, nothing detected against it.
    pub fn new() -> (r: Self)
        ensures
            r.wf(),
            r.entries@.len() == 0,
    {
        TemplateStore { entries: Vec::new() }
    }

    /// Number of stored templates.
    pub fn len(&self) -> (r: usize)
        ensures
            r == self.entries@.len(),
    {
        self.entries.len()
    }

    /// Whether the store holds no templates.
    pub fn is_empty(&self) -> (r: bool)
        ensures
            r == (self.entries@.len() == 0),
    {
        self.entries.len() == 0
    }

    /// Stores `spectrum` as the reference for `note`, overwriting any
    /// template previously learned for that note and leaving every other
    /// note's template untouched.
    pub fn learn(&mut self, note: u8, spectrum: Vec<u32>)
        requires
            old(self).wf(),
            note <= 127,
            bounded_spectrum(spectrum@),
        ensures
            final(self).wf(),
            final(self).has_note(note),
            final(self).template_of(note) == spectrum@,
            forall|m: u8|
                m != note ==> (final(self).has_note(m) == old(self).has_note(m)),
            forall|m: u8|
                m != note && old(self).has_note(m)
                    ==> final(self).template_of(m) == old(self).template_of(m),
            final(self).entries@.len() == old(self).entries@.len()
                + (if old(self).has_note(note) { 0int } else { 1int }),
    {
        let ghost prev = *self;
        let mut idx: usize = 0;
        while idx < self.entries.len() && self.entries[idx].note < note
            invariant
                *self == prev,
                idx <= self.entries@.len(),
                forall|i: int| 0 <= i < idx ==> self.entries@[i].note < note,
            decreases self.entries@.len() - idx,
        {
            idx = idx + 1;
        }
        if idx < self.entries.len() && self.entries[idx].note == note {
            proof {
                prev.lemma_note_index(idx as int);
            }
            self.entries[idx] = TemplateEntry { note, spectrum };
            proof {
                assert(self.entries@ =~= prev.entries@.update(
                    idx as int,
                    self.entries@[idx as int],
                ));
                self.lemma_note_index(idx as int);
                assert forall|m: u8| m != note implies
                    (final(self).has_note(m) == prev.has_note(m)) by {
                    if prev.has_note(m) {
                        let i = prev.note_index(m);
                        assert(self.entries@[i].note == m);
                    }
                    if self.has_note(m) {
                        let i = self.note_index(m);
                        assert(prev.entries@[i].note == m);
                    }
                }
                assert forall|m: u8| m != note && prev.has_note(m) implies
                    final(self).template_of(m) == prev.template_of(m) by {
                    let i = prev.note_index(m);
                    assert(self.entries@[i].note == m);
                    self.lemma_note_index(i);
                    prev.lemma_note_index(i);
                }
            }
        } else {
            proof {
                if prev.has_note(note) {
                    let i = prev.note_index(note);
                    assert(idx <= i);
                    if idx < i {
                        assert(prev.entries@[idx as int].note < prev.entries@[i].note);
                    }
                    assert(false);
                }
            }
            self.entries.insert(idx, TemplateEntry { note, spectrum });
            proof {
                assert(self.entries@[idx as int].note == note);
                assert(forall|i: int|
                    0 <= i < idx ==> self.entries@[i] == prev.entries@[i]);
                assert(forall|i: int|
                    idx < i < self.entries@.len()
                        ==> self.entries@[i] == prev.entries@[i - 1]);
                assert forall|i: int, j: int|
                    0 <= i < j < self.entries@.len() implies
                    self.entries@[i].note < self.entries@[j].note by {
                    if i == idx && j > idx {
                        assert(self.entries@[j] == prev.entries@[j - 1]);
                        assert(j - 1 >= idx);
                        assert(prev.entries@[j - 1].note != note);
                    }
                    if j == idx && i < idx {
                        assert(self.entries@[i] == prev.entries@[i]);
                    }
                }
                self.lemma_note_index(idx as int);
                assert forall|m: u8| m != note implies
                    (final(self).has_note(m) == prev.has_note(m)) by {
                    if prev.has_note(m) {
                        let i = prev.note_index(m);
                        if i < idx {
                            assert(self.entries@[i].note == m);
                        } else {
                            assert(self.entries@[i + 1].note == m);
                        }
                    }
                    if self.has_note(m) {
                        let i = self.note_index(m);
                        if i < idx {
                            assert(prev.entries@[i].note == m);
                        } else {
                            assert(i > idx);
                            assert(prev.entries@[i - 1].note == m);
                        }
                    }
                }
                assert forall|m: u8| m != note && prev.has_note(m) implies
                    final(self).template_of(m) == prev.template_of(m) by {
                    let i = prev.note_index(m);
                    prev.lemma_note_index(i);
                    if i < idx {
                        assert(self.entries@[i].note == m);
                        self.lemma_note_index(i);
                    } else {
                        assert(self.entries@[i + 1].note == m);
                        self.lemma_note_index(i + 1);
                    }
                }
            }
        }
    }

    /// A consistent snapshot of every stored (note, template) entry, in
    /// ascending note order.
    pub fn all_templates(&self) -> (r: &Vec<TemplateEntry>)
        ensures
            r@ == self.entries@,
    {
        &self.entries
    }

    /// Looks up the template stored for `note`, if any.
    pub fn get(&self, note: u8) -> (r: Option<&Vec<u32>>)
        requires
            self.wf(),
        ensures
            match r {
                Some(t) => self.has_note(note) && t@ == self.template_of(note),
                None => !self.has_note(note),
            },
    {
        let n = self.entries.len();
        let mut i: usize = 0;
        while i < n
            invariant
                i <= n,
                n == self.entries@.len(),
                self.wf(),
                forall|j: int| 0 <= j < i ==> self.entries@[j].note != note,
            decreases n - i,
        {
            if self.entries[i].note == note {
                proof {
                    self.lemma_note_index(i as int);
                }
                return Some(&self.entries[i].spectrum);
            }
            i = i + 1;
        }
        None
    }
}

} // verus!
