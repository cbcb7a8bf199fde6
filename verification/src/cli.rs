//! The command-line surface of the tool, as plain data.
//!
//! The front end parses the process arguments into a [`Cli`] value and hands
//! it to the library; paths are carried as strings. [`Commands::to_args`]
//! flattens the parsed command into the [`Args`] record the pipeline runs on.

use vstd::prelude::*;

verus! {

/// The parsed command line: exactly one subcommand.
#[derive(Debug)]
pub struct Cli {
    pub command: Commands,
}

/// The subcommands the tool accepts.
#[derive(Debug)]
pub enum Commands {
    /// Transcribe an audio file into an SRT subtitle file.
    Transcribe {
        input: String,
        output: String,
        vad_model: String,
        whisper_model: String,
        language: String,
        initial_prompt: String,
        log_level: String,
    },
    /// Show information about the tool.
    About,
}

/// The settings of one transcription run.
#[derive(Debug)]
pub struct Args {
    pub input: String,
    pub output: String,
    pub vad_model: String,
    pub whisper_model: String,
    pub language: String,
    pub initial_prompt: String,
    pub log_level: String,
}

impl Commands {
    /// The run settings carried by this command: `Transcribe` yields its
    /// fields as an [`Args`] record, `About` yields nothing.
    pub fn to_args(&self) -> (r: Option<Args>)
        ensures
            match self {
                Commands::Transcribe {
                    input,
                    output,
                    vad_model,
                    whisper_model,
                    language,
                    initial_prompt,
                    log_level,
                } => {
                    &&& r is Some
                    &&& r->0.input@ == input@
                    &&& r->0.output@ == output@
                    &&& r->0.vad_model@ == vad_model@
                    &&& r->0.whisper_model@ == whisper_model@
                    &&& r->0.language@ == language@
                    &&& r->0.initial_prompt@ == initial_prompt@
                    &&& r->0.log_level@ == log_level@
                },
                Commands::About => r is None,
            },
    {
        match self {
            Commands::Transcribe {
                input,
                output,
                vad_model,
                whisper_model,
                language,
                initial_prompt,
                log_level,
            } => Some(
                Args {
                    input: input.clone(),
                    output: output.clone(),
                    vad_model: vad_model.clone(),
                    whisper_model: whisper_model.clone(),
                    language: language.clone(),
                    initial_prompt: initial_prompt.clone(),
                    log_level: log_level.clone(),
                },
            ),
            Commands::About => None,
        }
    }
}

/// The fixed settings a development build runs with when no command line is
/// given.
pub fn get_debug_mode_args() -> (a: Args)
    ensures
        a.input@ == "./samples/test2_cn.wav"@,
        a.output@ == "./samples/test_zh.srt"@,
        a.vad_model@ == "./models/silero_vad.onnx"@,
        a.whisper_model@ == "./models/ggml-large-v3-turbo.bin"@,
        a.language@ == "zh"@,
        a.initial_prompt@ == ""@,
        a.log_level@ == "debug"@,
{
    Args {
        input: "./samples/test2_cn.wav".to_owned(),
        output: "./samples/test_zh.srt".to_owned(),
        vad_model: "./models/silero_vad.onnx".to_owned(),
        whisper_model: "./models/ggml-large-v3-turbo.bin".to_owned(),
        language: "zh".to_owned(),
        initial_prompt: "".to_owned(),
        log_level: "debug".to_owned(),
    }
}

} // verus!
