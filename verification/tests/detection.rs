use guitar_midi_tracker::note_detection::NoteDetector;
use guitar_midi_tracker::SIM_SCALE;

fn spectrum_with(len: usize, pairs: &[(usize, u32)]) -> Vec<u32> {
    let mut s = vec![0u32; len];
    for &(i, v) in pairs {
        s[i] = v;
    }
    s
}

#[test]
fn empty_store_detects_nothing() {
    let d = NoteDetector::new();
    let spectrum = spectrum_with(8, &[(0, 1000), (3, 500)]);
    assert_eq!(d.detect_notes(&spectrum, 6, 500_000), Vec::<u8>::new());
    assert_eq!(d.detect_notes(&spectrum, 1, 0), Vec::<u8>::new());
    assert_eq!(d.detect_notes(&spectrum, 12, 1_000_000), Vec::<u8>::new());
    assert_eq!(d.detect_notes(&vec![0; 8], 6, 500_000), Vec::<u8>::new());
}

#[test]
fn zero_polyphony_detects_nothing() {
    let mut d = NoteDetector::new();
    let s = spectrum_with(8, &[(0, 1000)]);
    d.add_learned_note(60, s.clone());
    assert_eq!(d.detect_notes(&s, 0, 500_000), Vec::<u8>::new());
}

#[test]
fn self_similarity_detects_learned_note() {
    // a note learned from a non-zero spectrum scores exactly SIM_SCALE
    // against itself, so it clears any sensitivity below 2 * SIM_SCALE
    let mut d = NoteDetector::new();
    let s = spectrum_with(16, &[(2, 900), (5, 431), (9, 17)]);
    d.add_learned_note(72, s.clone());
    assert_eq!(d.detect_notes(&s, 1, 1_000_000), vec![72]);
    assert_eq!(d.detect_notes(&s, 6, 2 * SIM_SCALE - 1), vec![72]);
}

#[test]
fn zero_norm_spectrum_scores_zero_and_is_not_detected() {
    let mut d = NoteDetector::new();
    let s = spectrum_with(8, &[(1, 800)]);
    d.add_learned_note(60, s);
    // an all-zero input has zero norm: similarity is defined as 0
    assert_eq!(d.detect_notes(&vec![0; 8], 6, 100_000), Vec::<u8>::new());
}

#[test]
fn closest_template_wins_at_polyphony_one() {
    // learn note 60 with [1000, 0, 0, ...] and note 64 with [0, 1000, 0, ...];
    // the input [900, 100, 0, ...] is closer to note 60's template
    let mut d = NoteDetector::new();
    d.add_learned_note(60, spectrum_with(8, &[(0, 1000)]));
    d.add_learned_note(64, spectrum_with(8, &[(1, 1000)]));
    let input = spectrum_with(8, &[(0, 900), (1, 100)]);
    assert_eq!(d.detect_notes(&input, 1, 1_000_000), vec![60]);
}

#[test]
fn polyphony_limit_keeps_the_higher_scoring_note() {
    // both templates score above the threshold; with a limit of one only
    // the higher-scoring note comes back
    let mut d = NoteDetector::new();
    d.add_learned_note(50, spectrum_with(8, &[(0, 1000), (1, 1000)]));
    d.add_learned_note(55, spectrum_with(8, &[(0, 1000)]));
    let input = spectrum_with(8, &[(0, 1000), (1, 30)]);
    let both = d.detect_notes(&input, 2, 100_000);
    assert_eq!(both, vec![55, 50]);
    assert_eq!(d.detect_notes(&input, 1, 100_000), vec![55]);
}

#[test]
fn results_rank_by_similarity_then_note() {
    let mut d = NoteDetector::new();
    // two templates identical up to scale: cosine similarity ties exactly,
    // and the tie breaks toward the lower note number
    d.add_learned_note(70, spectrum_with(8, &[(0, 500)]));
    d.add_learned_note(65, spectrum_with(8, &[(0, 1000)]));
    let input = spectrum_with(8, &[(0, 777)]);
    assert_eq!(d.detect_notes(&input, 6, 1_000_000), vec![65, 70]);
}

#[test]
fn relearning_a_note_overwrites_its_template() {
    let mut d = NoteDetector::new();
    d.add_learned_note(60, spectrum_with(8, &[(0, 1000)]));
    d.add_learned_note(60, spectrum_with(8, &[(1, 1000)]));
    assert_eq!(
        d.learned_notes.get(60),
        Some(&spectrum_with(8, &[(1, 1000)]))
    );
    assert_eq!(d.learned_notes.len(), 1);
    // the old template is gone: an input matching it no longer detects
    let old_input = spectrum_with(8, &[(0, 1000)]);
    assert_eq!(d.detect_notes(&old_input, 6, 500_000), Vec::<u8>::new());
}

#[test]
fn templates_of_different_lengths_score_over_the_overlap() {
    let mut d = NoteDetector::new();
    d.add_learned_note(40, vec![1000, 0, 0, 0]);
    // the input is longer than the template: only the first four bins count
    let input = spectrum_with(16, &[(0, 1000)]);
    assert_eq!(d.detect_notes(&input, 6, 1_000_000), vec![40]);
}

#[test]
fn detector_reset_keeps_learned_templates() {
    let mut d = NoteDetector::new();
    d.add_learned_note(60, spectrum_with(8, &[(0, 1000)]));
    d.reset();
    assert_eq!(d.learned_notes.len(), 1);
    let s = spectrum_with(8, &[(0, 1000)]);
    assert_eq!(d.detect_notes(&s, 1, 1_000_000), vec![60]);
}

#[test]
fn threshold_is_strict_at_twice_the_scale() {
    // a perfect self-match scores exactly SIM_SCALE; the detection
    // condition is strict, so sensitivity of exactly 2 * SIM_SCALE (an
    // effective floor of 1.0) rejects even a perfect match
    let mut d = NoteDetector::new();
    let s = spectrum_with(8, &[(0, 1000)]);
    d.add_learned_note(60, s.clone());
    assert_eq!(d.detect_notes(&s, 1, 2 * SIM_SCALE), Vec::<u8>::new());
    assert_eq!(d.detect_notes(&s, 1, 2 * SIM_SCALE - 1), vec![60]);
}
