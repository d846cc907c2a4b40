//! Small note-related helpers.
//!
//! Conversions that are floating-point by nature (decibel gain, equal
//! temperament frequencies) belong to the host shell; the note naming
//! below is exact and verified.

use vstd::prelude::*;
use vstd::string::StringExecFns;

verus! {

/// The letter (with accidental) of a pitch class, `0` being C.
pub open spec fn spec_note_letter(pc: int) -> Seq<char> {
    if pc == 0 {
        "C"@
    } else if pc == 1 {
        "C#"@
    } else if pc == 2 {
        "D"@
    } else if pc == 3 {
        "D#"@
    } else if pc == 4 {
        "E"@
    } else if pc == 5 {
        "F"@
    } else if pc == 6 {
        "F#"@
    } else if pc == 7 {
        "G"@
    } else if pc == 8 {
        "G#"@
    } else if pc == 9 {
        "A"@
    } else if pc == 10 {
        "A#"@
    } else {
        "B"@
    }
}

/// The decimal digits of an octave number in `[-1, 9]`.
pub open spec fn spec_octave_digits(oct: int) -> Seq<char> {
    if oct == -1 {
        "-1"@
    } else if oct == 0 {
        "0"@
    } else if oct == 1 {
        "1"@
    } else if oct == 2 {
        "2"@
    } else if oct == 3 {
        "3"@
    } else if oct == 4 {
        "4"@
    } else if oct == 5 {
        "5"@
    } else if oct == 6 {
        "6"@
    } else if oct == 7 {
        "7"@
    } else if oct == 8 {
        "8"@
    } else {
        "9"@
    }
}

/// The conventional name of a MIDI note: its pitch-class letter followed
/// by its octave number, with octave -1 at note 0 (so note 60 is C4).
pub open spec fn spec_midi_note_name(note: u8) -> Seq<char> {
    spec_note_letter(note as int % 12) + spec_octave_digits(note as int / 12 - 1)
}

/// Renders a MIDI note number as its conventional name, e.g. `C4` for 60.
pub fn midi_note_to_name(note: u8) -> (r: String)
    requires
        note <= 127,
    ensures
        r@ == spec_midi_note_name(note),
{
    let pc = note % 12;
    let letter: &str = if pc == 0 {
        "C"
    } else if pc == 1 {
        "C#"
    } else if pc == 2 {
        "D"
    } else if pc == 3 {
        "D#"
    } else if pc == 4 {
        "E"
    } else if pc == 5 {
        "F"
    } else if pc == 6 {
        "F#"
    } else if pc == 7 {
        "G"
    } else if pc == 8 {
        "G#"
    } else if pc == 9 {
        "A"
    } else if pc == 10 {
        "A#"
    } else {
        "B"
    };
    let oct = note / 12;
    let digits: &str = if oct == 0 {
        "-1"
    } else if oct == 1 {
        "0"
    } else if oct == 2 {
        "1"
    } else if oct == 3 {
        "2"
    } else if oct == 4 {
        "3"
    } else if oct == 5 {
        "4"
    } else if oct == 6 {
        "5"
    } else if oct == 7 {
        "6"
    } else if oct == 8 {
        "7"
    } else if oct == 9 {
        "8"
    } else {
        "9"
    };
    String::from_str(letter).concat(digits)
}

} // verus!
