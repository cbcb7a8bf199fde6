use whisper_with_vad::assemble::SubtitleEntry;
use whisper_with_vad::cli::get_debug_mode_args;
use whisper_with_vad::cli::Args;
use whisper_with_vad::cli::Commands;
use whisper_with_vad::progress::PipelineState;
use whisper_with_vad::progress::ProgressChannel;
use whisper_with_vad::srt::build_subtitles;

fn chars(s: &str) -> Vec<char> {
    s.chars().collect()
}

#[test]
fn progress_channel_walks_the_stages_in_order() {
    let mut ch = ProgressChannel::new();
    assert_eq!(ch.stage(), PipelineState::Idle);
    assert_eq!(ch.permille(), 0);

    let expected = [
        PipelineState::Resampling,
        PipelineState::Segmenting,
        PipelineState::Transcribing,
        PipelineState::Saving,
        PipelineState::Finished,
    ];
    for stage in expected {
        ch.finish_stage();
        assert_eq!(ch.permille(), 1000);
        ch.enter_next_stage();
        assert_eq!(ch.stage(), stage);
        assert_eq!(ch.permille(), 0);
    }
    // A finished run returns to idle when the next one begins.
    ch.enter_next_stage();
    assert_eq!(ch.stage(), PipelineState::Idle);
}

#[test]
fn progress_is_reported_in_permille() {
    let mut ch = ProgressChannel::new();
    ch.report(0, 4);
    assert_eq!(ch.permille(), 0);
    ch.report(1, 4);
    assert_eq!(ch.permille(), 250);
    ch.report(1, 3);
    assert_eq!(ch.permille(), 333);
    ch.report(4, 4);
    assert_eq!(ch.permille(), 1000);
}

#[test]
fn pipeline_state_defaults_to_idle() {
    assert_eq!(PipelineState::default(), PipelineState::Idle);
}

#[test]
fn debug_mode_args_hold_the_fixed_settings() {
    let a = get_debug_mode_args();
    assert_eq!(a.input, "./samples/test2_cn.wav");
    assert_eq!(a.output, "./samples/test_zh.srt");
    assert_eq!(a.vad_model, "./models/silero_vad.onnx");
    assert_eq!(a.whisper_model, "./models/ggml-large-v3-turbo.bin");
    assert_eq!(a.language, "zh");
    assert_eq!(a.initial_prompt, "");
    assert_eq!(a.log_level, "debug");
}

#[test]
fn transcribe_command_flattens_to_args() {
    let cmd = Commands::Transcribe {
        input: "in.wav".to_string(),
        output: "out.srt".to_string(),
        vad_model: "vad.onnx".to_string(),
        whisper_model: "whisper.bin".to_string(),
        language: "en".to_string(),
        initial_prompt: "p".to_string(),
        log_level: "INFO".to_string(),
    };
    let args: Args = cmd.to_args().expect("transcribe carries args");
    assert_eq!(args.input, "in.wav");
    assert_eq!(args.output, "out.srt");
    assert_eq!(args.vad_model, "vad.onnx");
    assert_eq!(args.whisper_model, "whisper.bin");
    assert_eq!(args.language, "en");
    assert_eq!(args.initial_prompt, "p");
    assert_eq!(args.log_level, "INFO");
}

#[test]
fn about_command_carries_no_args() {
    assert!(Commands::About.to_args().is_none());
}

#[test]
fn srt_collection_renders_the_track() {
    let track = vec![
        SubtitleEntry { index: 1, start_ms: 3_000, end_ms: 6_000, text: chars("hello") },
        SubtitleEntry { index: 2, start_ms: 6_100, end_ms: 7_005, text: chars("world") },
    ];
    let subs = build_subtitles(&track);
    assert_eq!(subs.len(), 2);
    assert_eq!(
        subs.to_string(),
        "1\n00:00:03,000 --> 00:00:06,000\nhello\n\n2\n00:00:06,100 --> 00:00:07,005\nworld"
    );
}

#[test]
fn srt_timestamps_roll_over_units() {
    let track = vec![SubtitleEntry {
        index: 1,
        start_ms: 3_723_456,
        end_ms: 3_725_000,
        text: chars("late"),
    }];
    let subs = build_subtitles(&track);
    assert_eq!(
        subs.to_string(),
        "1\n01:02:03,456 --> 01:02:05,000\nlate"
    );
}
