//! Note classifier: scores a spectrum against every learned template,
//! keeps the candidates above the sensitivity threshold, ranks them by
//! similarity (ties broken by ascending note number, for reproducibility)
//! and truncates to the polyphony limit.
//!
//! The whole selection is pinned down by a constructive specification:
//! `select_top` of the qualifying candidates, where `select_top`
//! repeatedly extracts the strictly best remaining candidate.

use vstd::prelude::*;
use crate::similarity::{
    bounded_spectrum, calculate_similarity, spec_similarity, dot_prefix, overlap_len,
    lemma_dot_prefix_bounds, lemma_floor_sqrt_exists, floor_sqrt, lemma_self_similarity,
};
use crate::template_store::{TemplateEntry, TemplateStore};
use crate::codec::{
    serialize_entries, deserialize_entries, spec_serialize, spec_deserialize, store_model,
};
use crate::SIM_SCALE;
use vstd::arithmetic::div_mod::{lemma_div_nonincreasing, lemma_div_pos_is_pos};

verus! {

/// A template qualifies when twice its similarity score exceeds the
/// sensitivity value: the user-facing sensitivity knob maps to an
/// effective similarity floor of half its value (a knob of `SIM_SCALE`,
/// i.e. 1.0, demands a similarity above 0.5).
pub open spec fn qualifies(e: TemplateEntry, spectrum: Seq<u32>, sensitivity: u64) -> bool {
    2 * spec_similarity(spectrum, e.spectrum@) > sensitivity
}

/// The qualifying candidates of a store, in store order: each is the pair
/// of a note and its similarity score against the input spectrum.
pub open spec fn candidates_of(
    entries: Seq<TemplateEntry>,
    spectrum: Seq<u32>,
    sensitivity: u64,
) -> Seq<(u8, int)>
    decreases entries.len(),
{
    if entries.len() == 0 {
        Seq::empty()
    } else {
        let rest = candidates_of(entries.drop_last(), spectrum, sensitivity);
        if qualifies(entries.last(), spectrum, sensitivity) {
            rest.push((entries.last().note, spec_similarity(spectrum, entries.last().spectrum@)))
        } else {
            rest
        }
    }
}

/// Strict ranking order on candidates: higher similarity wins, and on an
/// exact tie the lower note number wins.
pub open spec fn ranks_before(c1: (u8, int), c2: (u8, int)) -> bool {
    c1.1 > c2.1 || (c1.1 == c2.1 && c1.0 < c2.0)
}

/// All candidate notes are distinct, so the ranking order is total.
pub open spec fn distinct_notes(c: Seq<(u8, int)>) -> bool {
    forall|i: int, j: int| 0 <= i < j < c.len() ==> c[i].0 != c[j].0
}

/// Index of the best-ranked candidate.
pub open spec fn best_index(c: Seq<(u8, int)>) -> int
    decreases c.len(),
{
    if c.len() <= 1 {
        0
    } else {
        let b = best_index(c.drop_first()) + 1;
        if ranks_before(c[0], c[b]) {
            0
        } else {
            b
        }
    }
}

/// The `best_index` of a non-empty candidate sequence is in range and no
/// candidate ranks before it.
pub proof fn lemma_best_index_props(c: Seq<(u8, int)>)
    requires
        c.len() > 0,
    ensures
        0 <= best_index(c) < c.len(),
        forall|m: int| 0 <= m < c.len() ==> !ranks_before(c[m], c[best_index(c)]),
    decreases c.len(),
{
    if c.len() > 1 {
        lemma_best_index_props(c.drop_first());
        let b = best_index(c.drop_first()) + 1;
        assert(forall|m: int| 1 <= m < c.len() ==> c[m] == c.drop_first()[m - 1]);
        if ranks_before(c[0], c[b]) {
            assert forall|m: int| 0 <= m < c.len() implies !ranks_before(c[m], c[0]) by {
                if m >= 1 {
                    assert(!ranks_before(c.drop_first()[m - 1], c.drop_first()[b - 1]));
                }
            }
        } else {
            assert forall|m: int| 0 <= m < c.len() implies !ranks_before(c[m], c[b]) by {
                if m >= 1 {
                    assert(!ranks_before(c.drop_first()[m - 1], c.drop_first()[b - 1]));
                }
            }
        }
    }
}

/// With distinct notes the ranking order is total, so the best candidate
/// is unique: any index that nothing ranks before is the `best_index`.
pub proof fn lemma_best_index_unique(c: Seq<(u8, int)>, i: int)
    requires
        distinct_notes(c),
        0 <= i < c.len(),
        forall|m: int| 0 <= m < c.len() ==> !ranks_before(c[m], c[i]),
    ensures
        i == best_index(c),
{
    lemma_best_index_props(c);
    let b = best_index(c);
    if i != b {
        assert(c[i].0 != c[b].0);
        assert(ranks_before(c[i], c[b]) || ranks_before(c[b], c[i]));
        assert(false);
    }
}

/// The best-ranked `k` candidates, best first: repeatedly extract the
/// candidate nothing ranks before.
pub open spec fn select_top(c: Seq<(u8, int)>, k: nat) -> Seq<(u8, int)>
    decreases k,
{
    if k == 0 || c.len() == 0 {
        Seq::empty()
    } else {
        let b = best_index(c);
        seq![c[b]] + select_top(c.remove(b), (k - 1) as nat)
    }
}

/// Removing an element keeps the remaining notes distinct and keeps every
/// other element present.
pub proof fn lemma_remove_keeps(c: Seq<(u8, int)>, b: int)
    requires
        distinct_notes(c),
        0 <= b < c.len(),
    ensures
        distinct_notes(c.remove(b)),
        forall|x: (u8, int)| c.remove(b).contains(x) ==> c.contains(x),
        forall|x: (u8, int)| c.contains(x) && x != c[b] ==> c.remove(b).contains(x),
{
    c.remove_ensures(b);
    assert forall|x: (u8, int)| c.remove(b).contains(x) implies c.contains(x) by {
        let i = choose|i: int| 0 <= i < c.remove(b).len() && c.remove(b)[i] == x;
        if i < b {
            assert(c[i] == x);
        } else {
            assert(c[i + 1] == x);
        }
    }
    assert forall|x: (u8, int)| c.contains(x) && x != c[b] implies c.remove(b).contains(x) by {
        let i = choose|i: int| 0 <= i < c.len() && c[i] == x;
        if i < b {
            assert(c.remove(b)[i] == x);
        } else {
            assert(i != b);
            assert(c.remove(b)[i - 1] == x);
        }
    }
}

/// What `select_top` returns, stated axiomatically: it has
/// `min(k, |candidates|)` entries, every entry is a candidate, they come
/// best first, and every candidate left out is outranked by every entry
/// returned.
pub proof fn lemma_select_top_properties(c: Seq<(u8, int)>, k: nat)
    requires
        distinct_notes(c),
    ensures
        select_top(c, k).len() == if k <= c.len() { k as int } else { c.len() as int },
        forall|i: int| 0 <= i < select_top(c, k).len() ==> c.contains(#[trigger] select_top(c, k)[i]),
        forall|i: int, j: int|
            0 <= i < j < select_top(c, k).len()
                ==> ranks_before(select_top(c, k)[i], select_top(c, k)[j]),
        forall|x: (u8, int)|
            c.contains(x) && !select_top(c, k).contains(x)
                ==> forall|i: int|
                0 <= i < select_top(c, k).len() ==> ranks_before(#[trigger] select_top(c, k)[i], x),
    decreases k,
{
    if k == 0 || c.len() == 0 {
    } else {
        let b = best_index(c);
        lemma_best_index_props(c);
        lemma_remove_keeps(c, b);
        let rest = c.remove(b);
        lemma_select_top_properties(rest, (k - 1) as nat);
        let sel = select_top(c, k);
        let sub = select_top(rest, (k - 1) as nat);
        assert(sel == seq![c[b]] + sub);
        assert(sel[0] == c[b]);
        assert(forall|i: int| 1 <= i < sel.len() ==> sel[i] == sub[i - 1]);

        // every selected element is a candidate
        assert forall|i: int| 0 <= i < sel.len() implies c.contains(#[trigger] sel[i]) by {
            if i == 0 {
                assert(c[b] == sel[0]);
            } else {
                assert(rest.contains(sub[i - 1]));
            }
        }

        // the best-first ordering
        assert forall|i: int, j: int| 0 <= i < j < sel.len() implies
            ranks_before(sel[i], sel[j]) by {
            if i == 0 {
                let x = sub[j - 1];
                assert(rest.contains(x));
                c.remove_ensures(b);
                let xi = choose|m: int| 0 <= m < rest.len() && rest[m] == x;
                let ci = if xi < b { xi } else { xi + 1 };
                assert(c[ci] == x);
                assert(ci != b);
                assert(!ranks_before(x, c[b]));
                assert(c[ci].0 != c[b].0);
                assert(ranks_before(c[b], x));
            } else {
                assert(ranks_before(sub[i - 1], sub[j - 1]));
            }
        }

        // dominance over everything left out
        assert forall|x: (u8, int)| c.contains(x) && !sel.contains(x) implies
            forall|i: int| 0 <= i < sel.len() ==> ranks_before(#[trigger] sel[i], x) by {
            assert(x != c[b]) by {
                if x == c[b] {
                    assert(sel[0] == x);
                    assert(sel.contains(x));
                }
            }
            assert(rest.contains(x));
            assert(!sub.contains(x)) by {
                if sub.contains(x) {
                    let m = choose|m: int| 0 <= m < sub.len() && sub[m] == x;
                    assert(sel[m + 1] == x);
                    assert(sel.contains(x));
                }
            }
            assert forall|i: int| 0 <= i < sel.len() implies ranks_before(sel[i], x) by {
                if i == 0 {
                    let xi = choose|m: int| 0 <= m < rest.len() && rest[m] == x;
                    c.remove_ensures(b);
                    let ci = if xi < b { xi } else { xi + 1 };
                    assert(c[ci] == x);
                    assert(ci != b);
                    assert(!ranks_before(x, c[b]));
                    assert(c[ci].0 != c[b].0);
                    assert(ranks_before(c[b], x));
                } else {
                    assert(ranks_before(sub[i - 1], x));
                }
            }
        }
    }
}

/// Note of each candidate pair.
pub open spec fn notes_of(c: Seq<(u8, int)>) -> Seq<u8> {
    c.map_values(|p: (u8, int)| p.0)
}

/// The detected note sequence a classification must return: the notes of
/// the best-ranked `max_notes` qualifying candidates, best first.
pub open spec fn spec_detect_notes(
    entries: Seq<TemplateEntry>,
    spectrum: Seq<u32>,
    max_notes: nat,
    sensitivity: u64,
) -> Seq<u8> {
    notes_of(select_top(candidates_of(entries, spectrum, sensitivity), max_notes))
}

/// Exec candidates agree with their spec counterparts.
pub open spec fn cands_match(c: Seq<(u8, u128)>, s: Seq<(u8, int)>) -> bool {
    &&& c.len() == s.len()
    &&& forall|i: int| 0 <= i < c.len() ==> (#[trigger] c[i]).0 == s[i].0 && c[i].1 == s[i].1
}

/// Similarity scores are non-negative and small enough that doubling one
/// cannot overflow the 128-bit comparisons below.
pub proof fn lemma_similarity_bounds(a: Seq<u32>, b: Seq<u32>)
    requires
        bounded_spectrum(a),
        bounded_spectrum(b),
    ensures
        0 <= spec_similarity(a, b) <= 72057456599040000int * SIM_SCALE,
{
    let m = overlap_len(a, b);
    lemma_dot_prefix_bounds(a, b, m);
    assert(m * (crate::MAG_MAX * crate::MAG_MAX) <= 72057456599040000int) by (nonlinear_arith)
        requires 0 <= m <= crate::MAX_SPECTRUM_LEN;
    let dot = dot_prefix(a, b, m);
    let np = floor_sqrt(dot_prefix(a, a, m) * dot_prefix(b, b, m));
    if np != 0 {
        lemma_dot_prefix_bounds(a, a, m);
        lemma_dot_prefix_bounds(b, b, m);
        assert(dot_prefix(a, a, m) * dot_prefix(b, b, m) >= 0) by (nonlinear_arith)
            requires dot_prefix(a, a, m) >= 0, dot_prefix(b, b, m) >= 0;
        lemma_floor_sqrt_exists(dot_prefix(a, a, m) * dot_prefix(b, b, m));
        assert(np > 0);
        lemma_div_pos_is_pos(dot * SIM_SCALE, np);
        lemma_div_nonincreasing(dot * SIM_SCALE, np);
        assert(dot * SIM_SCALE >= 0) by (nonlinear_arith)
            requires dot >= 0;
        assert(dot * SIM_SCALE <= 72057456599040000int * SIM_SCALE) by (nonlinear_arith)
            requires 0 <= dot <= 72057456599040000int;
    }
}

/// Tracks spectra against the learned templates: holds the template store
/// and classifies each completed spectrum against it.
pub struct NoteDetector {
    /// Sample rate in Hz (kept for parity with the analyzer's mapping).
    pub sample_rate: u32,
    /// The learned note templates.
    pub learned_notes: TemplateStore,
}

impl NoteDetector {
    /// Well-formed when the template store is.
    pub open spec fn wf(self) -> bool {
        self.learned_notes.wf()
    }

    /// Creates a detector with an empty template store.
    pub fn new() -> (r: Self)
        ensures
            r.wf(),
            r.sample_rate == 44100,
            r.learned_notes.entries@.len() == 0,
    {
        NoteDetector { sample_rate: 44100, learned_notes: TemplateStore::new() }
    }

    /// Records the sample rate; the learned templates are kept.
    pub fn initialize(&mut self, sample_rate: u32)
        requires
            old(self).wf(),
        ensures
            final(self).wf(),
            final(self).sample_rate == sample_rate,
            final(self).learned_notes == old(self).learned_notes,
    {
        self.sample_rate = sample_rate;
    }

    /// A stream reset does not forget learned templates: the store
    /// persists across transport discontinuities.
    pub fn reset(&mut self)
        requires
            old(self).wf(),
        ensures
            *final(self) == *old(self),
    {
    }

    /// Stores (or overwrites) the reference spectrum for `note`.
    pub fn add_learned_note(&mut self, note: u8, spectrum: Vec<u32>)
        requires
            old(self).wf(),
            note <= 127,
            bounded_spectrum(spectrum@),
        ensures
            final(self).wf(),
            final(self).sample_rate == old(self).sample_rate,
            final(self).learned_notes.has_note(note),
            final(self).learned_notes.template_of(note) == spectrum@,
            forall|m: u8|
                m != note ==> (final(self).learned_notes.has_note(m)
                    == old(self).learned_notes.has_note(m)),
            forall|m: u8|
                m != note && old(self).learned_notes.has_note(m)
                    ==> final(self).learned_notes.template_of(m)
                        == old(self).learned_notes.template_of(m),
            final(self).learned_notes.entries@.len() == old(self).learned_notes.entries@.len()
                + (if old(self).learned_notes.has_note(note) { 0int } else { 1int }),
    {
        self.learned_notes.learn(note, spectrum);
    }

    /// Classifies a spectrum: returns the notes of the best-ranked
    /// `max_notes` templates whose doubled similarity score exceeds
    /// `sensitivity` (so the effective similarity floor is half the
    /// sensitivity value, both in units of `1 / SIM_SCALE`), best first.
    /// An empty store, a polyphony limit of zero, or no qualifying
    /// template yields an empty result, never an error.
    pub fn detect_notes(&self, spectrum: &Vec<u32>, max_notes: usize, sensitivity: u64) -> (r:
        Vec<u8>)
        requires
            self.wf(),
            bounded_spectrum(spectrum@),
        ensures
            r@ == spec_detect_notes(
                self.learned_notes.entries@,
                spectrum@,
                max_notes as nat,
                sensitivity,
            ),
            self.learned_notes.entries@.len() == 0 ==> r@ == Seq::<u8>::empty(),
    {
        let entries = self.learned_notes.all_templates();
        let n = entries.len();
        let mut cands: Vec<(u8, u128)> = Vec::new();
        let mut i: usize = 0;
        while i < n
            invariant
                i <= n,
                n == entries@.len(),
                entries@ == self.learned_notes.entries@,
                self.wf(),
                bounded_spectrum(spectrum@),
                cands_match(cands@, candidates_of(entries@.take(i as int), spectrum@, sensitivity)),
            decreases n - i,
        {
            proof {
                lemma_similarity_bounds(spectrum@, entries@[i as int].spectrum@);
            }
            let sim = calculate_similarity(spectrum, &entries[i].spectrum);
            if 2 * sim > sensitivity as u128 {
                cands.push((entries[i].note, sim));
            }
            proof {
                let pre = entries@.take(i as int);
                let post = entries@.take(i + 1);
                assert(post.drop_last() =~= pre);
                assert(post.last() == entries@[i as int]);
            }
            i = i + 1;
        }
        proof {
            assert(entries@.take(n as int) =~= entries@);
        }
        let ghost orig = candidates_of(self.learned_notes.entries@, spectrum@, sensitivity);
        proof {
            lemma_candidates_distinct(self.learned_notes.entries@, spectrum@, sensitivity);
        }
        let mut out: Vec<u8> = Vec::new();
        let ghost mut chosen: Seq<(u8, int)> = Seq::empty();
        proof {
            assert(chosen + select_top(exec_cands(cands@), (max_notes - out@.len()) as nat)
                =~= select_top(orig, max_notes as nat)) by {
                assert(exec_cands(cands@) =~= orig);
            }
        }
        while out.len() < max_notes && cands.len() > 0
            invariant
                out@.len() <= max_notes,
                cands_match(cands@, exec_cands(cands@)),
                distinct_notes(exec_cands(cands@)),
                out@ == notes_of(chosen),
                chosen + select_top(exec_cands(cands@), (max_notes - out@.len()) as nat)
                    == select_top(orig, max_notes as nat),
            decreases cands@.len(),
        {
            let ghost cur = exec_cands(cands@);
            let mut bi: usize = 0;
            let mut j: usize = 1;
            while j < cands.len()
                invariant
                    cands_match(cands@, cur),
                    cur == exec_cands(cands@),
                    cands@.len() > 0,
                    bi < j,
                    j <= cands@.len(),
                    forall|m: int| 0 <= m < j ==> !ranks_before(cur[m], cur[bi as int]),
                decreases cands@.len() - j,
            {
                let cj = cands[j];
                let cb = cands[bi];
                if cj.1 > cb.1 || (cj.1 == cb.1 && cj.0 < cb.0) {
                    bi = j;
                }
                j = j + 1;
            }
            proof {
                lemma_best_index_unique(cur, bi as int);
                lemma_best_index_props(cur);
                lemma_remove_keeps(cur, bi as int);
            }
            let picked = cands[bi];
            out.push(picked.0);
            cands.remove(bi);
            proof {
                let k_old = (max_notes - (out@.len() - 1)) as nat;
                assert(select_top(cur, k_old) == seq![cur[bi as int]]
                    + select_top(cur.remove(bi as int), (k_old - 1) as nat));
                assert(exec_cands(cands@) =~= cur.remove(bi as int)) by {
                    cur.remove_ensures(bi as int);
                }
                let prev_chosen = chosen;
                chosen = chosen.push(cur[bi as int]);
                assert(out@ =~= notes_of(chosen));
                assert(chosen + select_top(exec_cands(cands@), (max_notes - out@.len()) as nat)
                    =~= select_top(orig, max_notes as nat)) by {
                    assert(prev_chosen + select_top(cur, k_old)
                        == select_top(orig, max_notes as nat));
                }
            }
        }
        proof {
            assert(select_top(exec_cands(cands@), (max_notes - out@.len()) as nat)
                =~= Seq::<(u8, int)>::empty());
            assert(chosen =~= select_top(orig, max_notes as nat));
            if self.learned_notes.entries@.len() == 0 {
                assert(out@ =~= Seq::<u8>::empty());
            }
        }
        out
    }

    /// Encodes the learned templates as bytes; the host shell writes them
    /// to storage off the audio thread.
    pub fn save_learned_data(&self) -> (r: Vec<u8>)
        requires
            self.wf(),
        ensures
            r@ == spec_serialize(self.learned_notes.entries@),
    {
        serialize_entries(&self.learned_notes.entries)
    }

    /// Replaces the learned templates with the store the bytes encode.
    /// Succeeds exactly on the encodings of well-formed stores; malformed
    /// bytes are reported and leave the previous store fully intact
    /// (replace on success, never clear and fail).
    pub fn load_learned_data(&mut self, bytes: &Vec<u8>) -> (r: Result<(), PersistError>)
        requires
            old(self).wf(),
        ensures
            match r {
                Ok(()) => {
                    &&& spec_deserialize(bytes@) is Some
                    &&& final(self).wf()
                    &&& store_model(final(self).learned_notes.entries@) == spec_deserialize(
                        bytes@,
                    )->Some_0
                    &&& final(self).sample_rate == old(self).sample_rate
                },
                Err(PersistError::MalformedData) => {
                    &&& spec_deserialize(bytes@) is None
                    &&& *final(self) == *old(self)
                },
            },
    {
        match deserialize_entries(bytes) {
            Some(entries) => {
                self.learned_notes = TemplateStore { entries };
                Ok(())
            },
            None => Err(PersistError::MalformedData),
        }
    }
}

/// Failure of template-store persistence, reported distinctly from an
/// empty store: the bytes do not encode a well-formed store.
#[derive(Clone, Copy, Debug, PartialEq, Eq, Structural)]
pub enum PersistError {
    /// The bytes are not the encoding of a well-formed template store.
    MalformedData,
}

/// A note learned from a non-zero spectrum and stored alone is detected
/// when that same spectrum comes back: its similarity score is exactly
/// `SIM_SCALE`, which clears any sensitivity below twice that scale.
pub proof fn lemma_learned_note_detected(
    entries: Seq<TemplateEntry>,
    x: Seq<u32>,
    sensitivity: u64,
    max_notes: nat,
)
    requires
        entries.len() == 1,
        entries[0].spectrum@ == x,
        bounded_spectrum(x),
        exists|i: int| 0 <= i < x.len() && x[i] > 0,
        sensitivity < 2 * SIM_SCALE,
        max_notes >= 1,
    ensures
        spec_detect_notes(entries, x, max_notes, sensitivity) == seq![entries[0].note],
{
    lemma_self_similarity(x);
    let cands = candidates_of(entries, x, sensitivity);
    assert(entries.drop_last().len() == 0);
    assert(entries.last() == entries[0]);
    assert(qualifies(entries[0], x, sensitivity));
    assert(candidates_of(entries.drop_last(), x, sensitivity) == Seq::<(u8, int)>::empty());
    assert(cands =~= seq![(entries[0].note, SIM_SCALE as int)]);
    assert(best_index(cands) == 0);
    assert(cands.remove(0) =~= Seq::<(u8, int)>::empty());
    assert(select_top(cands.remove(0), (max_notes - 1) as nat) == Seq::<(u8, int)>::empty());
    assert(select_top(cands, max_notes) =~= seq![cands[0]]);
    assert(notes_of(seq![cands[0]]) =~= seq![entries[0].note]);
}

/// The spec-level candidates an exec candidate vector stands for.
pub open spec fn exec_cands(c: Seq<(u8, u128)>) -> Seq<(u8, int)> {
    c.map_values(|p: (u8, u128)| (p.0, p.1 as int))
}

/// Whether `m` is the note of some entry of the store.
pub open spec fn note_from_store(entries: Seq<TemplateEntry>, m: u8) -> bool {
    exists|e: int| 0 <= e < entries.len() && m == (#[trigger] entries[e]).note
}

/// Candidates inherit distinct (indeed strictly increasing) notes from the
/// sorted store they are drawn from.
pub proof fn lemma_candidates_distinct(
    entries: Seq<TemplateEntry>,
    spectrum: Seq<u32>,
    sensitivity: u64,
)
    requires
        forall|i: int, j: int|
            0 <= i < j < entries.len() ==> entries[i].note < entries[j].note,
    ensures
        distinct_notes(candidates_of(entries, spectrum, sensitivity)),
        forall|i: int, j: int|
            0 <= i < j < candidates_of(entries, spectrum, sensitivity).len()
                ==> (#[trigger] candidates_of(entries, spectrum, sensitivity)[i]).0
                    < (#[trigger] candidates_of(entries, spectrum, sensitivity)[j]).0,
        forall|i: int|
            0 <= i < candidates_of(entries, spectrum, sensitivity).len()
                ==> note_from_store(
                    entries,
                    (#[trigger] candidates_of(entries, spectrum, sensitivity)[i]).0,
                ),
    decreases entries.len(),
{
    if entries.len() > 0 {
        let pre = entries.drop_last();
        lemma_candidates_distinct(pre, spectrum, sensitivity);
        let crest = candidates_of(pre, spectrum, sensitivity);
        let call = candidates_of(entries, spectrum, sensitivity);
        if qualifies(entries.last(), spectrum, sensitivity) {
            assert forall|i: int| 0 <= i < crest.len() implies
                crest[i].0 < entries.last().note by {
                assert(note_from_store(pre, crest[i].0));
                let e = choose|e: int| 0 <= e < pre.len() && crest[i].0 == (#[trigger] pre[e]).note;
                assert(entries[e].note < entries.last().note);
            }
            assert forall|i: int| 0 <= i < call.len() implies
                note_from_store(entries, (#[trigger] call[i]).0) by {
                if i < crest.len() {
                    assert(note_from_store(pre, crest[i].0));
                    let e = choose|e: int| 0 <= e < pre.len() && crest[i].0 == (#[trigger] pre[e]).note;
                    assert(call[i].0 == entries[e].note);
                } else {
                    assert(call[i].0 == entries[entries.len() - 1].note);
                }
            }
        } else {
            assert forall|i: int| 0 <= i < call.len() implies
                note_from_store(entries, (#[trigger] call[i]).0) by {
                assert(note_from_store(pre, crest[i].0));
                let e = choose|e: int| 0 <= e < pre.len() && crest[i].0 == (#[trigger] pre[e]).note;
                assert(call[i].0 == entries[e].note);
            }
        }
    }
}

} // verus!
