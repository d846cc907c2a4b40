use guitar_midi_tracker::note_detection::{NoteDetector, PersistError};

#[test]
fn round_trip_preserves_notes_and_spectra() {
    let mut d = NoteDetector::new();
    d.add_learned_note(60, vec![1000, 0, 431, 17]);
    d.add_learned_note(64, vec![0, 999, 0, 3]);
    d.add_learned_note(40, vec![5, 5, 5, 5]);
    let bytes = d.save_learned_data();

    let mut fresh = NoteDetector::new();
    assert_eq!(fresh.load_learned_data(&bytes), Ok(()));
    assert_eq!(fresh.learned_notes.len(), 3);
    assert_eq!(fresh.learned_notes.get(40), Some(&vec![5, 5, 5, 5]));
    assert_eq!(fresh.learned_notes.get(60), Some(&vec![1000, 0, 431, 17]));
    assert_eq!(fresh.learned_notes.get(64), Some(&vec![0, 999, 0, 3]));
    assert_eq!(fresh.learned_notes.get(63), None);
    // and the round trip is byte-for-byte reproducible
    assert_eq!(fresh.save_learned_data(), bytes);
}

#[test]
fn empty_store_round_trips() {
    let d = NoteDetector::new();
    let bytes = d.save_learned_data();
    assert_eq!(bytes, vec![0u8]);
    let mut fresh = NoteDetector::new();
    fresh.add_learned_note(60, vec![1, 2, 3]);
    assert_eq!(fresh.load_learned_data(&bytes), Ok(()));
    // loading replaces the whole store: the old template is gone
    assert_eq!(fresh.learned_notes.len(), 0);
}

#[test]
fn encoding_is_the_documented_byte_layout() {
    let mut d = NoteDetector::new();
    d.add_learned_note(60, vec![1, 2]);
    assert_eq!(
        d.save_learned_data(),
        vec![
            1, // entry count
            60, // note
            2, 0, 0, 0, // spectrum length, little endian
            1, 0, 0, 0, // first magnitude
            2, 0, 0, 0, // second magnitude
        ]
    );
}

#[test]
fn empty_bytes_are_malformed() {
    let mut d = NoteDetector::new();
    assert_eq!(
        d.load_learned_data(&Vec::new()),
        Err(PersistError::MalformedData)
    );
}

#[test]
fn truncated_bytes_are_malformed() {
    let mut d = NoteDetector::new();
    d.add_learned_note(60, vec![1, 2]);
    let bytes = d.save_learned_data();
    for cut in 1..bytes.len() {
        let truncated: Vec<u8> = bytes[..cut].to_vec();
        let mut fresh = NoteDetector::new();
        assert_eq!(
            fresh.load_learned_data(&truncated),
            Err(PersistError::MalformedData),
            "a prefix of {} bytes must be rejected",
            cut
        );
    }
}

#[test]
fn trailing_bytes_are_malformed() {
    let mut d = NoteDetector::new();
    d.add_learned_note(60, vec![1, 2]);
    let mut bytes = d.save_learned_data();
    bytes.push(0);
    let mut fresh = NoteDetector::new();
    assert_eq!(
        fresh.load_learned_data(&bytes),
        Err(PersistError::MalformedData)
    );
}

#[test]
fn notes_out_of_order_or_repeated_are_malformed() {
    // two entries with notes 64 then 60: not strictly ascending
    let bytes = vec![
        2, 64, 1, 0, 0, 0, 9, 0, 0, 0, 60, 1, 0, 0, 0, 9, 0, 0, 0,
    ];
    let mut d = NoteDetector::new();
    assert_eq!(d.load_learned_data(&bytes), Err(PersistError::MalformedData));
    // the same note twice
    let bytes = vec![
        2, 60, 1, 0, 0, 0, 9, 0, 0, 0, 60, 1, 0, 0, 0, 9, 0, 0, 0,
    ];
    assert_eq!(d.load_learned_data(&bytes), Err(PersistError::MalformedData));
}

#[test]
fn out_of_range_note_or_magnitude_is_malformed() {
    // note 200 is outside MIDI range
    let bytes = vec![1, 200, 1, 0, 0, 0, 9, 0, 0, 0];
    let mut d = NoteDetector::new();
    assert_eq!(d.load_learned_data(&bytes), Err(PersistError::MalformedData));
    // a magnitude above the fixed-point bound (2^20)
    let bytes = vec![1, 60, 1, 0, 0, 0, 0, 0, 16, 0];
    assert_eq!(d.load_learned_data(&bytes), Err(PersistError::MalformedData));
}

#[test]
fn failed_load_leaves_the_store_intact() {
    let mut d = NoteDetector::new();
    d.add_learned_note(60, vec![1000, 0, 0]);
    let garbage = vec![9, 9, 9];
    assert_eq!(d.load_learned_data(&garbage), Err(PersistError::MalformedData));
    // replace on success, never clear and fail
    assert_eq!(d.learned_notes.len(), 1);
    assert_eq!(d.learned_notes.get(60), Some(&vec![1000, 0, 0]));
}
