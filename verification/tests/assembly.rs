use whisper_with_vad::assemble::assemble;
use whisper_with_vad::assemble::strip_prompt;
use whisper_with_vad::assemble::TranscriptFragment;
use whisper_with_vad::segment::ClassifyOutcome;
use whisper_with_vad::segment::SegmentationEngine;
use whisper_with_vad::segment::SpeechSegment;

fn chars(s: &str) -> Vec<char> {
    s.chars().collect()
}

fn text_of(v: &[char]) -> String {
    v.iter().collect()
}

fn fragment(start_tick: i64, end_tick: i64, text: &str) -> TranscriptFragment {
    TranscriptFragment { start_tick, end_tick, text: chars(text) }
}

#[test]
fn end_to_end_single_fragment() {
    // A 10 s input with speech from 3.0 s to 6.0 s ...
    let samples = vec![9i16; 160_000];
    let outcomes: Vec<ClassifyOutcome> = (0..110)
        .map(|i| {
            let permille = if (30..60).contains(&i) { 1000 } else { 0 };
            ClassifyOutcome::Score { permille }
        })
        .collect();
    let segs = SegmentationEngine::segment(&samples, &outcomes);
    assert_eq!(segs.len(), 1);
    assert_eq!(segs[0].start_sample, 48_000);

    // ... and a transcription that returns one fragment {0, 300, "hello"}
    // for that segment yields exactly one entry: 1, 3000 ms, 6000 ms,
    // "hello".
    let fragments = vec![vec![fragment(0, 300, "hello")]];
    let track = assemble(&segs, &fragments, &chars(""));
    assert_eq!(track.len(), 1);
    assert_eq!(track[0].index, 1);
    assert_eq!(track[0].start_ms, 3_000);
    assert_eq!(track[0].end_ms, 6_000);
    assert_eq!(text_of(&track[0].text), "hello");
}

#[test]
fn entries_stay_inside_their_segment_and_count_up() {
    let segs = vec![
        SpeechSegment { start_sample: 48_000, end_sample: 99_200, samples: Vec::new() },
        SpeechSegment { start_sample: 160_000, end_sample: 192_000, samples: Vec::new() },
    ];
    let fragments = vec![
        vec![fragment(0, 300, "hello"), fragment(250, 99_999, "world")],
        vec![fragment(10, 50, "again")],
    ];
    let track = assemble(&segs, &fragments, &chars(""));
    assert_eq!(track.len(), 3);
    for (k, e) in track.iter().enumerate() {
        assert_eq!(e.index, k + 1);
        assert!(e.start_ms <= e.end_ms);
    }
    // Segment one spans 3000..6200 ms; the second fragment's end is clamped
    // to the segment end.
    assert_eq!(track[0].start_ms, 3_000);
    assert_eq!(track[0].end_ms, 6_000);
    assert_eq!(track[1].start_ms, 5_500);
    assert_eq!(track[1].end_ms, 6_200);
    // Segment two spans 10000..12000 ms.
    assert_eq!(track[2].start_ms, 10_100);
    assert_eq!(track[2].end_ms, 10_500);
    assert!(track[2].end_ms <= 12_000);
}

#[test]
fn prompt_prefix_is_stripped() {
    // Prompt "x" and fragment text "x, hello" assemble to exactly "hello".
    let segs = vec![SpeechSegment { start_sample: 0, end_sample: 32_000, samples: Vec::new() }];
    let fragments = vec![vec![fragment(0, 100, "x, hello")]];
    let track = assemble(&segs, &fragments, &chars("x"));
    assert_eq!(track.len(), 1);
    assert_eq!(text_of(&track[0].text), "hello");
}

#[test]
fn fragment_empty_after_stripping_is_dropped() {
    let segs = vec![SpeechSegment { start_sample: 0, end_sample: 32_000, samples: Vec::new() }];
    let fragments = vec![vec![fragment(0, 10, "x"), fragment(20, 40, "x, hello")]];
    let track = assemble(&segs, &fragments, &chars("x"));
    assert_eq!(track.len(), 1);
    assert_eq!(track[0].index, 1);
    assert_eq!(text_of(&track[0].text), "hello");
    assert_eq!(track[0].start_ms, 200);
    assert_eq!(track[0].end_ms, 400);
}

#[test]
fn text_not_starting_with_prompt_is_kept() {
    let out = strip_prompt(&chars("hello, x"), &chars("x"));
    assert_eq!(text_of(&out), "hello, x");
}

#[test]
fn empty_prompt_strips_nothing() {
    let out = strip_prompt(&chars("x, hello"), &chars(""));
    assert_eq!(text_of(&out), "x, hello");
}

#[test]
fn full_width_separators_are_stripped_too() {
    let text: Vec<char> = vec!['x', '\u{ff0c}', '\u{3000}', 'a', 'b'];
    let out = strip_prompt(&text, &chars("x"));
    assert_eq!(text_of(&out), "ab");
}

#[test]
fn all_unicode_whitespace_is_stripped() {
    let text: Vec<char> = vec!['x', '\u{2000}', '\u{0085}', '\u{202f}', '\u{2028}', 'h', 'i'];
    let out = strip_prompt(&text, &chars("x"));
    assert_eq!(text_of(&out), "hi");
}

#[test]
fn prompt_only_separators_give_empty_text() {
    let out = strip_prompt(&chars("x ,  "), &chars("x"));
    assert!(out.is_empty());
}
