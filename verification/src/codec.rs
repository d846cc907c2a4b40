//! Byte encoding of the template store for persistence.
//!
//! The format is canonical: a count byte, then each entry in ascending
//! note order as a note byte, a little-endian 32-bit spectrum length, and
//! the spectrum's magnitudes as little-endian 32-bit words. The decoder
//! accepts exactly the encodings of well-formed stores — notes strictly
//! increasing and within MIDI range, lengths and magnitudes within the
//! fixed-point bounds, no trailing bytes — so a save/load round trip
//! reproduces the store value for value.

use vstd::prelude::*;
use vstd::arithmetic::div_mod::{
    lemma_fundamental_div_mod, lemma_div_denominator, lemma_small_mod, lemma_mod_bound,
    lemma_div_pos_is_pos,
};
use crate::MAX_SPECTRUM_LEN;
use crate::MAG_MAX;
use crate::template_store::{TemplateEntry, entries_wf, lemma_entries_len_bound};

verus! {

/// The four little-endian bytes of a 32-bit word.
pub open spec fn encode_u32_le(x: u32) -> Seq<u8> {
    seq![
        (x % 256) as u8,
        ((x / 256) % 256) as u8,
        ((x / 65536) % 256) as u8,
        ((x / 16777216) % 256) as u8,
    ]
}

/// The 32-bit word four little-endian bytes stand for.
pub open spec fn decode_u32_le(b: Seq<u8>) -> int {
    b[0] + 256 * b[1] + 65536 * b[2] + 16777216 * b[3]
}

/// Little-endian 32-bit encoding loses nothing.
pub proof fn lemma_u32_le_round_trip(x: u32)
    ensures
        decode_u32_le(encode_u32_le(x)) == x,
{
    let xi = x as int;
    lemma_fundamental_div_mod(xi, 256);
    lemma_fundamental_div_mod(xi / 256, 256);
    lemma_div_denominator(xi, 256, 256);
    lemma_fundamental_div_mod(xi / 65536, 256);
    lemma_div_denominator(xi, 65536, 256);
    assert(xi / 16777216 < 256) by (nonlinear_arith)
        requires 0 <= xi < 4294967296;
    lemma_div_pos_is_pos(xi, 16777216);
    lemma_small_mod((xi / 16777216) as nat, 256nat);
    lemma_mod_bound(xi, 256);
    lemma_mod_bound(xi / 256, 256);
    lemma_mod_bound(xi / 65536, 256);
}

/// The magnitudes of a spectrum, each as four little-endian bytes.
pub open spec fn encode_mags(s: Seq<u32>) -> Seq<u8>
    decreases s.len(),
{
    if s.len() == 0 {
        Seq::empty()
    } else {
        encode_u32_le(s[0]) + encode_mags(s.drop_first())
    }
}

/// One store entry: note byte, spectrum length, magnitudes.
pub open spec fn encode_entry(e: TemplateEntry) -> Seq<u8> {
    seq![e.note] + encode_u32_le(e.spectrum@.len() as u32) + encode_mags(e.spectrum@)
}

/// All store entries, in store order.
pub open spec fn encode_entries(s: Seq<TemplateEntry>) -> Seq<u8>
    decreases s.len(),
{
    if s.len() == 0 {
        Seq::empty()
    } else {
        encode_entry(s[0]) + encode_entries(s.drop_first())
    }
}

/// The byte encoding of a whole store: entry count, then the entries.
pub open spec fn spec_serialize(s: Seq<TemplateEntry>) -> Seq<u8> {
    seq![s.len() as u8] + encode_entries(s)
}

/// The plain model of a store's entries: (note, magnitudes) pairs.
pub open spec fn store_model(s: Seq<TemplateEntry>) -> Seq<(u8, Seq<u32>)> {
    s.map_values(|e: TemplateEntry| (e.note, e.spectrum@))
}

/// Appending one magnitude appends its four bytes.
pub proof fn lemma_encode_mags_append(s: Seq<u32>, v: u32)
    ensures
        encode_mags(s.push(v)) == encode_mags(s) + encode_u32_le(v),
    decreases s.len(),
{
    if s.len() == 0 {
        assert(s.push(v).drop_first() =~= Seq::<u32>::empty());
        assert(s.push(v)[0] == v);
        assert(encode_mags(s.push(v)) =~= encode_u32_le(v) + encode_mags(Seq::<u32>::empty()));
        assert(encode_mags(s.push(v)) =~= encode_u32_le(v));
        assert(encode_mags(s) + encode_u32_le(v) =~= encode_u32_le(v));
    } else {
        assert(s.push(v).drop_first() =~= s.drop_first().push(v));
        lemma_encode_mags_append(s.drop_first(), v);
        assert(s.push(v)[0] == s[0]);
        assert(encode_u32_le(s[0]) + (encode_mags(s.drop_first()) + encode_u32_le(v))
            =~= (encode_u32_le(s[0]) + encode_mags(s.drop_first())) + encode_u32_le(v));
    }
}

/// Appending one entry appends its encoding.
pub proof fn lemma_encode_entries_append(s: Seq<TemplateEntry>, e: TemplateEntry)
    ensures
        encode_entries(s.push(e)) == encode_entries(s) + encode_entry(e),
    decreases s.len(),
{
    if s.len() == 0 {
        assert(s.push(e).drop_first() =~= Seq::<TemplateEntry>::empty());
        assert(s.push(e)[0] == e);
        assert(encode_entries(s.push(e)) =~= encode_entry(e)
            + encode_entries(Seq::<TemplateEntry>::empty()));
        assert(encode_entries(s.push(e)) =~= encode_entry(e));
        assert(encode_entries(s) + encode_entry(e) =~= encode_entry(e));
    } else {
        assert(s.push(e).drop_first() =~= s.drop_first().push(e));
        lemma_encode_entries_append(s.drop_first(), e);
        assert(s.push(e)[0] == s[0]);
        assert(encode_entry(s[0]) + (encode_entries(s.drop_first()) + encode_entry(e))
            =~= (encode_entry(s[0]) + encode_entries(s.drop_first())) + encode_entry(e));
    }
}

/// Reads `count` magnitudes from a byte stream: each must be four bytes
/// of a word within the fixed-point magnitude range.
pub open spec fn parse_mags(b: Seq<u8>, count: nat) -> Option<(Seq<u32>, Seq<u8>)>
    decreases count,
{
    if count == 0 {
        Some((Seq::empty(), b))
    } else if b.len() < 4 {
        None
    } else {
        let v = decode_u32_le(b.subrange(0, 4));
        if v <= MAG_MAX {
            match parse_mags(b.skip(4), (count - 1) as nat) {
                Some(rest) => Some((seq![v as u32] + rest.0, rest.1)),
                None => None,
            }
        } else {
            None
        }
    }
}

/// Reads `count` entries from a byte stream: each note must be within
/// MIDI range and at least `lo` (which enforces strictly ascending
/// notes), and each spectrum length within bounds.
pub open spec fn parse_entries(b: Seq<u8>, count: nat, lo: int) -> Option<
    (Seq<(u8, Seq<u32>)>, Seq<u8>),
>
    decreases count,
{
    if count == 0 {
        Some((Seq::empty(), b))
    } else if b.len() < 5 {
        None
    } else {
        let note = b[0];
        let len = decode_u32_le(b.subrange(1, 5));
        if note < lo || note > 127 || len > MAX_SPECTRUM_LEN {
            None
        } else {
            match parse_mags(b.skip(5), len as nat) {
                Some(m) => match parse_entries(m.1, (count - 1) as nat, note + 1) {
                    Some(rest) => Some((seq![(note, m.0)] + rest.0, rest.1)),
                    None => None,
                },
                None => None,
            }
        }
    }
}

/// The store a byte sequence stands for: a count byte, that many entries,
/// and nothing after them — or nothing, when the bytes are malformed.
pub open spec fn spec_deserialize(b: Seq<u8>) -> Option<Seq<(u8, Seq<u32>)>> {
    if b.len() < 1 {
        None
    } else {
        match parse_entries(b.skip(1), b[0] as nat, 0) {
            Some(r) => if r.1.len() == 0 {
                Some(r.0)
            } else {
                None
            },
            None => None,
        }
    }
}

/// Decoding the encoding of bounded magnitudes gives them back, with the
/// bytes that followed untouched.
pub proof fn lemma_parse_mags_of_encode(s: Seq<u32>, tail: Seq<u8>)
    requires
        forall|i: int| 0 <= i < s.len() ==> s[i] <= MAG_MAX,
    ensures
        parse_mags(encode_mags(s) + tail, s.len()) is Some,
        parse_mags(encode_mags(s) + tail, s.len())->Some_0.0 == s,
        parse_mags(encode_mags(s) + tail, s.len())->Some_0.1 == tail,
    decreases s.len(),
{
    if s.len() == 0 {
        assert(encode_mags(s) + tail =~= tail);
    } else {
        let b = encode_mags(s) + tail;
        let v = s[0];
        lemma_u32_le_round_trip(v);
        assert(b.subrange(0, 4) =~= encode_u32_le(v));
        assert(b.skip(4) =~= encode_mags(s.drop_first()) + tail);
        lemma_parse_mags_of_encode(s.drop_first(), tail);
        assert(seq![v] + s.drop_first() =~= s);
    }
}

/// Decoding the encoding of a well-formed entry sequence gives its model
/// back, with the bytes that followed untouched.
pub proof fn lemma_parse_entries_of_encode(s: Seq<TemplateEntry>, tail: Seq<u8>, lo: int)
    requires
        entries_wf(s),
        s.len() > 0 ==> lo <= s[0].note,
        lo >= 0,
    ensures
        parse_entries(encode_entries(s) + tail, s.len(), lo) is Some,
        parse_entries(encode_entries(s) + tail, s.len(), lo)->Some_0.0 == store_model(s),
        parse_entries(encode_entries(s) + tail, s.len(), lo)->Some_0.1 == tail,
    decreases s.len(),
{
    if s.len() == 0 {
        assert(encode_entries(s) + tail =~= tail);
        assert(store_model(s) =~= Seq::<(u8, Seq<u32>)>::empty());
    } else {
        let e = s[0];
        let b = encode_entries(s) + tail;
        let elen = e.spectrum@.len() as u32;
        lemma_u32_le_round_trip(elen);
        assert(b.len() >= 5) by {
            assert(encode_entry(e).len() >= 5);
        }
        assert(b[0] == e.note);
        assert(b.subrange(1, 5) =~= encode_u32_le(elen));
        assert(decode_u32_le(b.subrange(1, 5)) == e.spectrum@.len());
        assert(e.spectrum@.len() <= MAX_SPECTRUM_LEN);
        assert(b.skip(5) =~= encode_mags(e.spectrum@) + (encode_entries(s.drop_first()) + tail));
        lemma_parse_mags_of_encode(e.spectrum@, encode_entries(s.drop_first()) + tail);
        let m = parse_mags(b.skip(5), e.spectrum@.len())->Some_0;
        assert(m.1 == encode_entries(s.drop_first()) + tail);
        assert(entries_wf(s.drop_first()));
        assert(s.drop_first().len() > 0 ==> e.note + 1 <= s.drop_first()[0].note) by {
            if s.len() > 1 {
                assert(s[0].note < s[1].note);
            }
        }
        lemma_parse_entries_of_encode(s.drop_first(), tail, e.note + 1);
        assert(seq![(e.note, e.spectrum@)] + store_model(s.drop_first()) =~= store_model(s));
    }
}

/// Save/load loses nothing: decoding the encoding of a well-formed store
/// yields exactly the store's model — every note and every magnitude
/// comes back value for value.
pub proof fn lemma_serialize_round_trip(s: Seq<TemplateEntry>)
    requires
        entries_wf(s),
    ensures
        spec_deserialize(spec_serialize(s)) == Some(store_model(s)),
{
    lemma_entries_len_bound(s);
    let b = spec_serialize(s);
    assert(b[0] == s.len() as u8);
    assert(b.skip(1) =~= encode_entries(s) + Seq::<u8>::empty());
    lemma_parse_entries_of_encode(s, Seq::empty(), 0);
}

/// Appends the four little-endian bytes of `x`.
fn push_u32_le(out: &mut Vec<u8>, x: u32)
    ensures
        final(out)@ == old(out)@ + encode_u32_le(x),
{
    out.push((x % 256) as u8);
    out.push(((x / 256) % 256) as u8);
    out.push(((x / 65536) % 256) as u8);
    out.push(((x / 16777216) % 256) as u8);
    proof {
        assert(out@ =~= old(out)@ + encode_u32_le(x));
    }
}

/// Reads the 32-bit word at `pos`.
fn read_u32_le(bytes: &Vec<u8>, pos: usize) -> (r: u32)
    requires
        pos + 4 <= bytes@.len(),
    ensures
        r == decode_u32_le(bytes@.subrange(pos as int, pos as int + 4)),
{
    let n = bytes.len();
    let b0 = bytes[pos] as u32;
    let b1 = bytes[pos + 1] as u32;
    let b2 = bytes[pos + 2] as u32;
    let b3 = bytes[pos + 3] as u32;
    b0 + 256 * b1 + 65536 * b2 + 16777216 * b3
}

/// Encodes a well-formed entry sequence as bytes.
pub fn serialize_entries(entries: &Vec<TemplateEntry>) -> (r: Vec<u8>)
    requires
        entries_wf(entries@),
    ensures
        r@ == spec_serialize(entries@),
{
    proof {
        lemma_entries_len_bound(entries@);
    }
    let n = entries.len();
    let mut out: Vec<u8> = Vec::new();
    out.push(n as u8);
    proof {
        assert(out@ =~= seq![entries@.len() as u8] + encode_entries(entries@.take(0)));
    }
    let mut i: usize = 0;
    while i < n
        invariant
            i <= n,
            n == entries@.len(),
            entries_wf(entries@),
            n <= 128,
            out@ == seq![entries@.len() as u8] + encode_entries(entries@.take(i as int)),
        decreases n - i,
    {
        let ghost out_at_entry = out@;
        out.push(entries[i].note);
        let m = entries[i].spectrum.len();
        push_u32_le(&mut out, m as u32);
        let ghost header = out@;
        proof {
            assert(header =~= out_at_entry + seq![entries@[i as int].note]
                + encode_u32_le(entries@[i as int].spectrum@.len() as u32));
            assert(out@ =~= header + encode_mags(entries@[i as int].spectrum@.take(0)));
        }
        let mut j: usize = 0;
        while j < m
            invariant
                j <= m,
                m == entries@[i as int].spectrum@.len(),
                0 <= i < entries@.len(),
                out@ == header + encode_mags(entries@[i as int].spectrum@.take(j as int)),
            decreases m - j,
        {
            push_u32_le(&mut out, entries[i].spectrum[j]);
            proof {
                let sp = entries@[i as int].spectrum@;
                lemma_encode_mags_append(sp.take(j as int), sp[j as int]);
                assert(sp.take(j + 1) =~= sp.take(j as int).push(sp[j as int]));
                assert(out@ =~= header + encode_mags(sp.take(j + 1)));
            }
            j = j + 1;
        }
        proof {
            let sp = entries@[i as int].spectrum@;
            assert(sp.take(m as int) =~= sp);
            lemma_encode_entries_append(entries@.take(i as int), entries@[i as int]);
            assert(entries@.take(i + 1) =~= entries@.take(i as int).push(entries@[i as int]));
            assert(encode_entry(entries@[i as int]) =~= seq![entries@[i as int].note]
                + encode_u32_le(sp.len() as u32) + encode_mags(sp));
            assert(out@ =~= seq![entries@.len() as u8] + encode_entries(entries@.take(i + 1)));
        }
        i = i + 1;
    }
    proof {
        assert(entries@.take(n as int) =~= entries@);
    }
    out
}

/// Reads `count` magnitudes starting at `pos`, mirroring `parse_mags`.
fn read_mags(bytes: &Vec<u8>, pos: usize, count: u32) -> (r: Option<(Vec<u32>, usize)>)
    requires
        pos <= bytes@.len(),
    ensures
        match r {
            Some(p) => {
                &&& pos <= p.1 <= bytes@.len()
                &&& parse_mags(bytes@.skip(pos as int), count as nat) is Some
                &&& parse_mags(bytes@.skip(pos as int), count as nat)->Some_0.0 == p.0@
                &&& parse_mags(bytes@.skip(pos as int), count as nat)->Some_0.1 == bytes@.skip(
                    p.1 as int,
                )
                &&& p.0@.len() == count
                &&& forall|k: int| 0 <= k < p.0@.len() ==> p.0@[k] <= MAG_MAX
            },
            None => parse_mags(bytes@.skip(pos as int), count as nat) is None,
        },
{
    let mut mags: Vec<u32> = Vec::new();
    let mut cur: usize = pos;
    let mut i: u32 = 0;
    while i < count
        invariant
            i <= count,
            pos <= cur <= bytes@.len(),
            mags@.len() == i,
            forall|k: int| 0 <= k < mags@.len() ==> mags@[k] <= MAG_MAX,
            ({
                let full = parse_mags(bytes@.skip(pos as int), count as nat);
                let rest = parse_mags(bytes@.skip(cur as int), (count - i) as nat);
                &&& (full is Some <==> rest is Some)
                &&& (rest is Some ==> full->Some_0.0 == mags@ + rest->Some_0.0)
                &&& (rest is Some ==> full->Some_0.1 == rest->Some_0.1)
            }),
        decreases count - i,
    {
        let ghost rem = (count - i) as nat;
        let ghost bcur = bytes@.skip(cur as int);
        if bytes.len() - cur < 4 {
            proof {
                assert(bcur.len() < 4);
                assert(parse_mags(bcur, rem) is None);
            }
            return None;
        }
        let v = read_u32_le(bytes, cur);
        proof {
            assert(bcur.subrange(0, 4) =~= bytes@.subrange(cur as int, cur as int + 4));
        }
        if v > MAG_MAX {
            proof {
                assert(parse_mags(bcur, rem) is None);
            }
            return None;
        }
        mags.push(v);
        cur = cur + 4;
        proof {
            assert(bytes@.skip(cur as int) =~= bcur.skip(4));
            let rest_new = parse_mags(bytes@.skip(cur as int), (count - i - 1) as nat);
            if rest_new is Some {
                assert(parse_mags(bcur, rem) is Some);
                assert(parse_mags(bcur, rem)->Some_0.0 =~= seq![v] + rest_new->Some_0.0);
                assert(mags@ =~= mags@.drop_last().push(v));
                assert(mags@ + rest_new->Some_0.0
                    =~= mags@.drop_last() + (seq![v] + rest_new->Some_0.0));
            } else {
                assert(parse_mags(bcur, rem) is None);
            }
        }
        i = i + 1;
    }
    proof {
        let rest = parse_mags(bytes@.skip(cur as int), 0);
        assert(rest is Some);
        assert(mags@ + rest->Some_0.0 =~= mags@);
    }
    Some((mags, cur))
}

/// Decodes a byte sequence into well-formed store entries: succeeds on
/// exactly the byte sequences that encode a well-formed store.
pub fn deserialize_entries(bytes: &Vec<u8>) -> (r: Option<Vec<TemplateEntry>>)
    ensures
        match r {
            Some(es) => {
                &&& entries_wf(es@)
                &&& spec_deserialize(bytes@) == Some(store_model(es@))
            },
            None => spec_deserialize(bytes@) is None,
        },
{
    if bytes.len() < 1 {
        return None;
    }
    let count = bytes[0];
    let mut entries: Vec<TemplateEntry> = Vec::new();
    let mut pos: usize = 1;
    let mut lo: u16 = 0;
    let mut i: u8 = 0;
    proof {
        assert(store_model(entries@) =~= Seq::<(u8, Seq<u32>)>::empty());
    }
    while i < count
        invariant
            i <= count,
            1 <= pos <= bytes@.len(),
            bytes@.len() >= 1,
            count == bytes@[0],
            lo <= 128,
            entries@.len() == i,
            entries_wf(entries@),
            forall|k: int| 0 <= k < entries@.len() ==> entries@[k].note < lo,
            ({
                let full = parse_entries(bytes@.skip(1), count as nat, 0);
                let rest = parse_entries(bytes@.skip(pos as int), (count - i) as nat, lo as int);
                &&& (full is Some <==> rest is Some)
                &&& (rest is Some ==> full->Some_0.0 == store_model(entries@) + rest->Some_0.0)
                &&& (rest is Some ==> full->Some_0.1 == rest->Some_0.1)
            }),
        decreases count - i,
    {
        let ghost rem = (count - i) as nat;
        let ghost bcur = bytes@.skip(pos as int);
        if bytes.len() - pos < 5 {
            proof {
                assert(bcur.len() < 5);
                assert(parse_entries(bcur, rem, lo as int) is None);
            }
            return None;
        }
        let note = bytes[pos];
        let len = read_u32_le(bytes, pos + 1);
        proof {
            assert(bcur[0] == note);
            assert(bcur.subrange(1, 5) =~= bytes@.subrange(pos + 1, pos + 5));
        }
        if (note as u16) < lo || note > 127 || len > MAX_SPECTRUM_LEN as u32 {
            proof {
                assert(parse_entries(bcur, rem, lo as int) is None);
            }
            return None;
        }
        let parsed = read_mags(bytes, pos + 5, len);
        proof {
            assert(bcur.skip(5) =~= bytes@.skip(pos + 5));
        }
        match parsed {
            None => {
                proof {
                    assert(parse_entries(bcur, rem, lo as int) is None);
                }
                return None;
            },
            Some(p) => {
                let (mags, end) = p;
                let ghost prev_entries = entries@;
                entries.push(TemplateEntry { note, spectrum: mags });
                proof {
                    assert(entries@ =~= prev_entries.push(
                        TemplateEntry { note, spectrum: mags },
                    ));
                    let rest_new = parse_entries(
                        bytes@.skip(end as int),
                        (count - i - 1) as nat,
                        note + 1,
                    );
                    if rest_new is Some {
                        assert(parse_entries(bcur, rem, lo as int) is Some);
                        assert(parse_entries(bcur, rem, lo as int)->Some_0.0
                            =~= seq![(note, mags@)] + rest_new->Some_0.0);
                        assert(store_model(entries@)
                            =~= store_model(prev_entries).push((note, mags@)));
                        assert(store_model(entries@) + rest_new->Some_0.0
                            =~= store_model(prev_entries) + (seq![(note, mags@)]
                                + rest_new->Some_0.0));
                    } else {
                        assert(parse_entries(bcur, rem, lo as int) is None);
                    }
                }
                pos = end;
                lo = note as u16 + 1;
            },
        }
        i = i + 1;
    }
    proof {
        let rest = parse_entries(bytes@.skip(pos as int), 0, lo as int);
        assert(rest is Some);
        assert(store_model(entries@) + rest->Some_0.0 =~= store_model(entries@));
    }
    if pos == bytes.len() {
        proof {
            assert(bytes@.skip(pos as int).len() == 0);
        }
        Some(entries)
    } else {
        proof {
            assert(bytes@.skip(pos as int).len() > 0);
        }
        None
    }
}

} // verus!
