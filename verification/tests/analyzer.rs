use guitar_midi_tracker::fft_processor::FFTProcessor;
use guitar_midi_tracker::GuitarMidiTracker;

#[test]
fn block_ready_exactly_once_per_block() {
    let mut p = FFTProcessor::new(8);
    p.initialize(48000);
    let mut ready_count = 0;
    for i in 0..8 {
        p.process_sample(1000 + i);
        if p.is_frame_complete() {
            ready_count += 1;
            assert_eq!(i, 7, "the frame must complete exactly at the wrapping call");
        }
    }
    assert_eq!(ready_count, 1);
    // the next block behaves the same way
    let mut ready_again = 0;
    for i in 0..8 {
        p.process_sample(i);
        if p.is_frame_complete() {
            ready_again += 1;
            assert_eq!(i, 7);
        }
    }
    assert_eq!(ready_again, 1);
}

#[test]
fn block_ready_from_mid_block_position() {
    let mut p = FFTProcessor::new(8);
    p.initialize(48000);
    for _ in 0..3 {
        p.process_sample(7);
    }
    // starting at cursor 3, the wrap happens at push 5 of the next 8
    let mut ready_at = Vec::new();
    for i in 0..8 {
        p.process_sample(9);
        if p.is_frame_complete() {
            ready_at.push(i);
        }
    }
    assert_eq!(ready_at, vec![4]);
}

#[test]
fn tracker_frame_completes_at_default_block_size() {
    let mut t = GuitarMidiTracker::default();
    t.initialize(44100);
    let chunk: Vec<u32> = vec![0; 1024];
    for _ in 0..3 {
        t.process_samples(&chunk);
        assert!(!t.is_frame_complete());
    }
    t.process_samples(&chunk);
    assert!(t.is_frame_complete());
}

#[test]
fn chronological_block_undoes_wraparound() {
    let mut p = FFTProcessor::new(4);
    p.initialize(44100);
    // push 6 samples: buffer holds [5, 6, 3, 4] with cursor at 2
    for s in 1..=6u32 {
        p.process_sample(s);
    }
    let block = p.chronological_block();
    assert_eq!(block, vec![3, 4, 5, 6]);
}

#[test]
fn reset_zeroes_buffer_cursor_and_spectrum() {
    let mut p = FFTProcessor::new(8);
    p.initialize(22050);
    for s in 0..5u32 {
        p.process_sample(s + 100);
    }
    p.store_spectrum(vec![7, 7, 7, 7]);
    p.reset();
    assert_eq!(p.chronological_block(), vec![0; 8]);
    assert_eq!(p.last_spectrum(), vec![0, 0, 0, 0]);
    // cursor rewound: the next full block completes after exactly 8 pushes
    for i in 0..8 {
        p.process_sample(1);
        assert_eq!(p.is_frame_complete(), i == 7);
    }
}

#[test]
fn spectrum_length_is_half_block_size() {
    let p = FFTProcessor::new(64);
    assert_eq!(p.last_spectrum().len(), 32);
    let q = FFTProcessor::new(4096);
    assert_eq!(q.last_spectrum().len(), 2048);
}

#[test]
fn frequency_for_bin_is_linear_and_hits_nyquist() {
    let mut p = FFTProcessor::new(4096);
    p.initialize(44100);
    // the result is the frequency numerator: bin * sample_rate, so the
    // frequency in Hz is the result / 4096, an exact rational
    assert_eq!(p.get_frequency_for_bin(0), 0);
    assert_eq!(p.get_frequency_for_bin(1), 44100);
    assert_eq!(
        p.get_frequency_for_bin(5),
        p.get_frequency_for_bin(2) + p.get_frequency_for_bin(3)
    );
    // Nyquist: bin 2048 stands for 2048 * 44100 / 4096 == 22050 Hz exactly
    assert_eq!(p.get_frequency_for_bin(2048), 2048 * 44100);
    assert_eq!(p.get_frequency_for_bin(2048) / 4096, 22050);
}

#[test]
fn unconfigured_analyzer_keeps_all_zero_spectrum() {
    let mut p = FFTProcessor::new(16);
    for s in 0..20u32 {
        p.process_sample(s);
    }
    // never initialized: the last spectrum stays its all-zero initial value
    assert_eq!(p.last_spectrum(), vec![0; 8]);
}

#[test]
fn zero_block_transforms_to_zero_spectrum() {
    // the full spectral path of one all-zero block, with the real
    // transform the host shell uses
    let mut p = FFTProcessor::new(16);
    p.initialize(44100);
    for _ in 0..16 {
        p.process_sample(0f32.to_bits());
    }
    assert!(p.is_frame_complete());
    let block = p.chronological_block();

    // host-shell side: window, transform, magnitudes, fixed point
    let n = block.len();
    let mut windowed: Vec<f32> = Vec::with_capacity(n);
    for (i, w) in block.iter().enumerate() {
        let hann =
            0.5 * (1.0 - (2.0 * std::f32::consts::PI * i as f32 / n as f32).cos());
        windowed.push(f32::from_bits(*w) * hann);
    }
    let mut planner = realfft::RealFftPlanner::<f32>::new();
    let fft = planner.plan_fft_forward(n);
    let mut output = vec![num_complex::Complex32::new(0.0, 0.0); n / 2 + 1];
    fft.process(&mut windowed, &mut output).unwrap();
    let mags: Vec<u32> = output[..n / 2]
        .iter()
        .map(|c| ((c.re * c.re + c.im * c.im).sqrt() * 1000.0).round() as u32)
        .collect();

    p.store_spectrum(mags);
    assert_eq!(p.last_spectrum(), vec![0; 8]);
}

#[test]
fn blocks_reassemble_across_odd_chunk_sizes() {
    // the host delivers arbitrarily sized chunks; a block completes purely
    // by sample count, so after any number of fed samples the frame is
    // complete exactly when that count is a multiple of the block size
    let mut t = GuitarMidiTracker::default();
    t.initialize(44100);
    let mut fed = 0usize;
    while fed < 3 * 4096 {
        let take = 17.min(3 * 4096 - fed);
        let chunk: Vec<u32> = (0..take as u32).collect();
        t.process_samples(&chunk);
        fed += take;
        assert_eq!(t.is_frame_complete(), fed % 4096 == 0);
    }
    assert_eq!(fed, 3 * 4096);
    assert!(t.is_frame_complete());
}
