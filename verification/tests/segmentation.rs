use whisper_with_vad::segment::ClassifyOutcome;
use whisper_with_vad::segment::SegmentationEngine;
use whisper_with_vad::segment::close_segment;
use whisper_with_vad::segment::SpeechSegment;

fn score(permille: u32) -> ClassifyOutcome {
    ClassifyOutcome::Score { permille }
}

/// Outcomes for a padded buffer of `total` windows: speech score inside
/// `[speech_from, speech_to)`, silence elsewhere.
fn outcomes_with_speech(total: usize, speech_from: usize, speech_to: usize) -> Vec<ClassifyOutcome> {
    (0..total)
        .map(|i| {
            if i >= speech_from && i < speech_to {
                score(1000)
            } else {
                score(0)
            }
        })
        .collect()
}

#[test]
fn all_silence_returns_empty() {
    // 10 s of audio; with the appended second of silence that is 110 windows.
    let samples = vec![0i16; 160_000];
    let outcomes = vec![score(0); 110];
    let segs = SegmentationEngine::segment(&samples, &outcomes);
    assert!(segs.is_empty());
}

#[test]
fn speech_from_two_to_five_seconds_gives_one_segment() {
    // Speech energy exactly from t=2.0s to t=5.0s: windows 20..50.
    let samples = vec![3i16; 160_000];
    let outcomes = outcomes_with_speech(110, 20, 50);
    let segs = SegmentationEngine::segment(&samples, &outcomes);
    assert_eq!(segs.len(), 1);
    // start no later than 2.0 s, end no earlier than 5.0 s, and at most
    // 0.2 s of hangover included.
    assert!(segs[0].start_sample <= 2 * 16000);
    assert!(segs[0].end_sample >= 5 * 16000);
    assert_eq!(segs[0].start_sample, 32_000);
    assert_eq!(segs[0].end_sample, 83_200);
    assert_eq!(segs[0].samples.len(), 51_200);
}

#[test]
fn short_run_is_padded_with_times_unchanged() {
    // A crafted run of raw duration 0.5 s (8000 samples).
    let pending = vec![7i16; 8000];
    let mut out: Vec<SpeechSegment> = Vec::new();
    close_segment(16_000, 24_000, pending, &mut out);
    assert_eq!(out.len(), 1);
    assert_eq!(out[0].start_sample, 16_000);
    assert_eq!(out[0].end_sample, 24_000);
    // Padded to at least 1.01 s worth of samples.
    assert_eq!(out[0].samples.len(), 16_260);
    assert!(out[0].samples.len() >= 16_160);
    assert!(out[0].samples[..8000].iter().all(|&s| s == 7));
    assert!(out[0].samples[8000..].iter().all(|&s| s == 0));
}

#[test]
fn short_run_padded_through_engine() {
    // Speech in windows 10..13 plus two hangover windows: a 0.5 s raw run.
    let samples = vec![7i16; 160_000];
    let outcomes = outcomes_with_speech(110, 10, 13);
    let segs = SegmentationEngine::segment(&samples, &outcomes);
    assert_eq!(segs.len(), 1);
    assert_eq!(segs[0].start_sample, 16_000);
    assert_eq!(segs[0].end_sample, 24_000);
    assert_eq!(segs[0].samples.len(), 16_260);
    assert!(segs[0].samples[..8000].iter().all(|&s| s == 7));
    assert!(segs[0].samples[8000..].iter().all(|&s| s == 0));
}

#[test]
fn long_run_splits_into_two_second_pieces() {
    // A crafted run of raw duration 125 s: 63 pieces of at most 2 s.
    let pending = vec![1i16; 2_000_000];
    let mut out: Vec<SpeechSegment> = Vec::new();
    close_segment(0, 2_000_000, pending, &mut out);
    assert_eq!(out.len(), 63);
    for (k, seg) in out.iter().enumerate() {
        assert_eq!(seg.start_sample, k * 32_000);
        assert!(seg.samples.len() <= 32_000);
        assert!(!seg.samples.is_empty());
        assert_eq!(seg.end_sample, seg.start_sample + seg.samples.len());
    }
    assert_eq!(out[62].samples.len(), 16_000);
    let total: usize = out.iter().map(|s| s.samples.len()).sum();
    assert_eq!(total, 2_000_000);
}

#[test]
fn stream_boundary_forces_flush() {
    // The classifier fails with its end-of-stream condition on the first
    // window; the window counts as speech and the following silence flushes
    // a (padded) segment.
    let samples = vec![0i16; 16_000];
    let mut outcomes = vec![ClassifyOutcome::StreamBoundary];
    outcomes.extend(vec![score(0); 19]);
    let segs = SegmentationEngine::segment(&samples, &outcomes);
    assert_eq!(segs.len(), 1);
    assert_eq!(segs[0].start_sample, 0);
    assert_eq!(segs[0].end_sample, 4_800);
    assert_eq!(segs[0].samples.len(), 16_260);
}

#[test]
fn stream_boundary_after_a_close_starts_at_its_own_window() {
    // One segment closes; a later stream-boundary window opens a new one at
    // its own position, so the emitted segments stay ordered and disjoint.
    let samples = vec![0i16; 32_000];
    let outcomes: Vec<ClassifyOutcome> = (0..30)
        .map(|i| match i {
            0 => score(1000),
            10 => ClassifyOutcome::StreamBoundary,
            _ => score(0),
        })
        .collect();
    let segs = SegmentationEngine::segment(&samples, &outcomes);
    assert_eq!(segs.len(), 2);
    assert_eq!(segs[0].start_sample, 0);
    assert_eq!(segs[0].end_sample, 4_800);
    assert_eq!(segs[1].start_sample, 16_000);
    assert_eq!(segs[1].end_sample, 20_800);
    assert!(segs[0].end_sample <= segs[1].start_sample);
}

#[test]
fn unclassified_failures_change_nothing() {
    let samples = vec![0i16; 16_000];
    let outcomes = vec![ClassifyOutcome::Unclassified; 20];
    let segs = SegmentationEngine::segment(&samples, &outcomes);
    assert!(segs.is_empty());
}

#[test]
fn threshold_is_strict() {
    // A score exactly at the threshold is silence; one permille above is
    // speech.
    let samples = vec![2i16; 16_000];
    let at_threshold = vec![score(350); 20];
    assert!(SegmentationEngine::segment(&samples, &at_threshold).is_empty());

    let mut above = vec![score(351); 10];
    above.extend(vec![score(0); 10]);
    let segs = SegmentationEngine::segment(&samples, &above);
    assert_eq!(segs.len(), 1);
    assert_eq!(segs[0].start_sample, 0);
    assert_eq!(segs[0].end_sample, 19_200);
    assert_eq!(segs[0].samples.len(), 19_200);
}

#[test]
fn two_bursts_give_ordered_disjoint_segments() {
    let samples = vec![4i16; 160_000];
    let outcomes: Vec<ClassifyOutcome> = (0..110)
        .map(|i| {
            if (20..30).contains(&i) || (60..70).contains(&i) {
                score(900)
            } else {
                score(100)
            }
        })
        .collect();
    let segs = SegmentationEngine::segment(&samples, &outcomes);
    assert_eq!(segs.len(), 2);
    for seg in segs.iter() {
        assert!(seg.start_sample < seg.end_sample);
    }
    assert!(segs[0].end_sample <= segs[1].start_sample);
    assert_eq!(segs[0].start_sample, 32_000);
    assert_eq!(segs[0].end_sample, 51_200);
    assert_eq!(segs[1].start_sample, 96_000);
    assert_eq!(segs[1].end_sample, 115_200);
}

#[test]
fn stepwise_engine_matches_batch_run() {
    let mut samples = vec![5i16; 32_000];
    let outcomes = outcomes_with_speech(30, 0, 10);
    let batch = SegmentationEngine::segment(&samples, &outcomes);

    whisper_with_vad::segment::append_tail_silence(&mut samples);
    assert_eq!(samples.len(), 48_000);
    let mut eng = SegmentationEngine::new();
    for (i, chunk) in samples.chunks(1600).enumerate() {
        eng.push_window(chunk, outcomes[i]);
    }
    let stepwise = eng.into_segments();

    assert_eq!(batch.len(), stepwise.len());
    for (a, b) in batch.iter().zip(stepwise.iter()) {
        assert_eq!(a.start_sample, b.start_sample);
        assert_eq!(a.end_sample, b.end_sample);
        assert_eq!(a.samples, b.samples);
    }
}

#[test]
fn segment_times_in_milliseconds() {
    let seg = SpeechSegment { start_sample: 48_000, end_sample: 99_200, samples: Vec::new() };
    assert_eq!(seg.start_ms(), 3_000);
    assert_eq!(seg.end_ms(), 6_200);
}
