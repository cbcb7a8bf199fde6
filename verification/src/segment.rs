//! Speech segmentation: a hysteresis state machine over classified windows.
//!
//! The input buffer is 16 kHz mono PCM, held as `i16` samples. One second of
//! silence is appended so that a trailing speech run is always closed, and the
//! buffer is cut into 100 ms windows. A voice-activity classifier scores each
//! window in order; a score above the speech threshold makes the window
//! speech, anything else silence. The engine opens a segment on the first
//! speech window, keeps it open through up to 200 ms of trailing silence (the
//! hangover), and closes it on the next silent window after the hangover is
//! spent. A closed run longer than 60 s is split into consecutive 2 s pieces;
//! one shorter than 1.01 s is zero-padded to slightly over one second, since
//! the downstream transcription engine needs a minimum input length; anything
//! in between is emitted unchanged.
//!
//! Classifier failures follow an explicit policy. A stream-boundary failure
//! (reported by the classifier near the end of its input) is treated as if
//! the window had been classified speech: it opens a segment at the window's
//! own position if none is open, contributes the window's samples, and the
//! following silence then flushes the run. Any other failure leaves the
//! engine state exactly as it was: the window contributes nothing.
//!
//! The whole per-window transition is the spec function [`engine_step`]; a
//! run over a buffer is its fold, [`engine_run`]. The executable engine is
//! proved to follow them step by step.

use vstd::prelude::*;

verus! {

/// Samples per second of audio.
pub const SAMPLE_RATE: usize = 16000;

/// Samples in one 100 ms classification window.
pub const CHUNK_SIZE: usize = 1600;

/// Samples of silence appended after the input, one second.
pub const TAIL_SILENCE_SAMPLES: usize = 16000;

/// Trailing silence tolerated inside an open segment, 200 ms.
pub const HANGOVER_LIMIT_SAMPLES: usize = 3200;

/// A window whose speech probability exceeds this permille value is speech.
pub const SPEECH_THRESHOLD_PERMILLE: u32 = 350;

/// A closed run longer than this, 60 s, is split into pieces.
pub const MAX_SEGMENT_SAMPLES: usize = 960000;

/// A closed run shorter than this, 1.01 s, is zero-padded.
pub const MIN_SEGMENT_SAMPLES: usize = 16160;

/// Length a short run is padded to: 1.01 s plus a small margin.
pub const PADDED_SEGMENT_SAMPLES: usize = 16260;

/// Length of the pieces an over-long run is split into, 2 s.
pub const SPLIT_PIECE_SAMPLES: usize = 32000;

/// Samples per millisecond.
pub const SAMPLES_PER_MS: usize = 16;

/// What the classifier reported for one window.
///
/// `Score` carries the speech probability scaled to permille. A
/// `StreamBoundary` is the invalid-argument condition the classifier raises
/// near the end of its stream; the engine treats such a window as speech, so
/// that the following silence flushes any open run. `Unclassified` is any
/// other classifier failure; it leaves the engine state untouched.
#[derive(Clone, Copy, Debug, PartialEq, Eq, Structural)]
pub enum ClassifyOutcome {
    Score { permille: u32 },
    StreamBoundary,
    Unclassified,
}

/// True when the outcome is a score above the speech threshold.
pub open spec fn is_speech_outcome(o: ClassifyOutcome) -> bool {
    match o {
        ClassifyOutcome::Score { permille } => permille > SPEECH_THRESHOLD_PERMILLE,
        _ => false,
    }
}

/// True when the outcome is a score at or below the speech threshold.
pub open spec fn is_silence_outcome(o: ClassifyOutcome) -> bool {
    match o {
        ClassifyOutcome::Score { permille } => permille <= SPEECH_THRESHOLD_PERMILLE,
        _ => false,
    }
}

/// A contiguous span of speech cut out of the recording.
///
/// `start_sample` and `end_sample` are positions on the padded recording
/// timeline; `samples` is the audio handed to transcription, which may be
/// zero-padded beyond `end_sample - start_sample` for short runs.
#[derive(Debug, Clone)]
pub struct SpeechSegment {
    pub start_sample: usize,
    pub end_sample: usize,
    pub samples: Vec<i16>,
}

/// The abstract value of a [`SpeechSegment`].
#[verifier::ext_equal]
pub struct SegmentModel {
    pub start: int,
    pub end: int,
    pub samples: Seq<i16>,
}

impl View for SpeechSegment {
    type V = SegmentModel;

    open spec fn view(&self) -> SegmentModel {
        SegmentModel {
            start: self.start_sample as int,
            end: self.end_sample as int,
            samples: self.samples@,
        }
    }
}

/// The abstract values of a sequence of segments.
pub open spec fn seg_views(v: Seq<SpeechSegment>) -> Seq<SegmentModel> {
    v.map_values(|s: SpeechSegment| s@)
}

/// A sequence of `n` zero samples.
pub open spec fn zeros(n: int) -> Seq<i16> {
    Seq::new(n as nat, |i: int| 0i16)
}

/// Position in samples of the start of window `i`.
pub open spec fn window_time(i: int) -> int {
    i * CHUNK_SIZE
}

/// Milliseconds elapsed at sample position `s`.
pub open spec fn sample_to_ms(s: int) -> int {
    s / SAMPLES_PER_MS as int
}

/// Number of windows a buffer of `len` samples is cut into: the final
/// partial window counts.
pub open spec fn window_count(len: int) -> int {
    (len + CHUNK_SIZE - 1) / CHUNK_SIZE as int
}

/// Window `i` of the buffer: a full 100 ms chunk, or whatever remains.
pub open spec fn window_at(buf: Seq<i16>, i: int) -> Seq<i16> {
    if window_time(i + 1) <= buf.len() {
        buf.subrange(window_time(i), window_time(i + 1))
    } else {
        buf.subrange(window_time(i), buf.len() as int)
    }
}

/// The buffer cut into windows.
pub open spec fn window_seq(buf: Seq<i16>) -> Seq<Seq<i16>> {
    Seq::new(window_count(buf.len() as int) as nat, |i: int| window_at(buf, i))
}

/// An over-long run cut into consecutive 2 s pieces, each piece a segment of
/// its own whose start is offset from `start` by a multiple of 2 s.
pub open spec fn split_pieces(start: int, samples: Seq<i16>) -> Seq<SegmentModel>
    decreases samples.len(),
{
    if samples.len() == 0 {
        Seq::empty()
    } else if samples.len() <= SPLIT_PIECE_SAMPLES {
        seq![(SegmentModel { start, end: start + samples.len(), samples })]
    } else {
        seq![
            (SegmentModel {
                start,
                end: start + SPLIT_PIECE_SAMPLES as int,
                samples: samples.take(SPLIT_PIECE_SAMPLES as int),
            }),
        ] + split_pieces(
            start + SPLIT_PIECE_SAMPLES as int,
            samples.skip(SPLIT_PIECE_SAMPLES as int),
        )
    }
}

/// The segments emitted when a pending run `[start, end)` closes: split when
/// longer than 60 s, zero-padded to just over a second when shorter than
/// 1.01 s, unchanged otherwise.
pub open spec fn closed_segments(start: int, end: int, pending: Seq<i16>) -> Seq<SegmentModel> {
    if pending.len() > MAX_SEGMENT_SAMPLES {
        split_pieces(start, pending)
    } else if pending.len() < MIN_SEGMENT_SAMPLES {
        seq![
            (SegmentModel {
                start,
                end,
                samples: pending + zeros(PADDED_SEGMENT_SAMPLES - pending.len()),
            }),
        ]
    } else {
        seq![(SegmentModel { start, end, samples: pending })]
    }
}

/// The abstract state of the segmentation engine.
#[verifier::ext_equal]
pub struct EngineModel {
    /// Whether a segment is currently open.
    pub in_speech: bool,
    /// Sample position where the open segment began.
    pub start: int,
    /// Samples accumulated for the open segment.
    pub pending: Seq<i16>,
    /// Silence already tolerated inside the open segment, in samples.
    pub hangover: int,
    /// Windows processed so far.
    pub windows_done: int,
    /// Segments emitted so far, in emission order.
    pub emitted: Seq<SegmentModel>,
}

/// The state of a fresh engine.
pub open spec fn engine_init() -> EngineModel {
    EngineModel {
        in_speech: false,
        start: 0,
        pending: Seq::empty(),
        hangover: 0,
        windows_done: 0,
        emitted: Seq::empty(),
    }
}

/// One window's transition of the engine state.
///
/// A speech window appends its samples and opens a segment if none is open;
/// a silent window inside an open segment is appended while the hangover
/// budget lasts and closes the segment once it is spent; a stream-boundary
/// failure counts as a speech window, so the following silence flushes the
/// run; any other failure changes nothing.
pub open spec fn engine_step(pre: EngineModel, window: Seq<i16>, o: ClassifyOutcome) -> EngineModel {
    let t = window_time(pre.windows_done);
    let post = if is_speech_outcome(o) || o is StreamBoundary {
        EngineModel {
            in_speech: true,
            start: if pre.in_speech {
                pre.start
            } else {
                t
            },
            pending: pre.pending + window,
            hangover: 0,
            ..pre
        }
    } else if is_silence_outcome(o) {
        if pre.in_speech {
            if pre.hangover < HANGOVER_LIMIT_SAMPLES {
                EngineModel {
                    pending: pre.pending + window,
                    hangover: pre.hangover + CHUNK_SIZE,
                    ..pre
                }
            } else {
                EngineModel {
                    in_speech: false,
                    pending: Seq::empty(),
                    hangover: 0,
                    emitted: pre.emitted + closed_segments(pre.start, t, pre.pending),
                    ..pre
                }
            }
        } else {
            pre
        }
    } else {
        pre
    };
    EngineModel { windows_done: pre.windows_done + 1, ..post }
}

/// The engine state after folding [`engine_step`] over windows and outcomes,
/// pairwise in order.
pub open spec fn engine_run(
    m: EngineModel,
    windows: Seq<Seq<i16>>,
    outcomes: Seq<ClassifyOutcome>,
) -> EngineModel
    decreases outcomes.len(),
{
    if outcomes.len() == 0 || windows.len() == 0 {
        m
    } else {
        engine_run(
            engine_step(m, windows[0], outcomes[0]),
            windows.drop_first(),
            outcomes.drop_first(),
        )
    }
}

/// The structural invariant the executable engine maintains: accumulated
/// samples never outrun the windows seen, and a closed engine holds nothing.
pub open spec fn engine_inv(m: EngineModel) -> bool {
    &&& m.start + m.pending.len() <= window_time(m.windows_done)
    &&& m.start >= 0
    &&& m.windows_done >= 0
    &&& !m.in_speech ==> m.pending.len() == 0
}

impl SpeechSegment {
    /// Start of the segment in milliseconds on the recording timeline.
    pub fn start_ms(&self) -> (ms: u32)
        requires
            self.start_sample / SAMPLES_PER_MS <= u32::MAX,
        ensures
            ms == sample_to_ms(self@.start),
    {
        (self.start_sample / SAMPLES_PER_MS) as u32
    }

    /// End of the segment in milliseconds on the recording timeline.
    pub fn end_ms(&self) -> (ms: u32)
        requires
            self.end_sample / SAMPLES_PER_MS <= u32::MAX,
        ensures
            ms == sample_to_ms(self@.end),
    {
        (self.end_sample / SAMPLES_PER_MS) as u32
    }
}

/// Appends every sample of `src` to `dst`.
fn extend_samples(dst: &mut Vec<i16>, src: &[i16])
    requires
        old(dst)@.len() + src@.len() <= usize::MAX,
    ensures
        final(dst)@ == old(dst)@ + src@,
{
    let n = src.len();
    let mut j: usize = 0;
    while j < n
        invariant
            n == src@.len(),
            j <= n,
            dst@ == old(dst)@ + src@.take(j as int),
        decreases n - j,
    {
        dst.push(src[j]);
        proof {
            assert(old(dst)@ + src@.take(j as int) + seq![src@[j as int]] =~= old(dst)@ + src@.take(
                j as int + 1,
            ));
        }
        j += 1;
    }
    proof {
        assert(src@.take(n as int) =~= src@);
    }
}

/// Appends the one second of silence that guarantees a trailing speech run
/// is closed before the windows end.
pub fn append_tail_silence(samples: &mut Vec<i16>)
    requires
        old(samples)@.len() + TAIL_SILENCE_SAMPLES <= usize::MAX,
    ensures
        final(samples)@ == old(samples)@ + zeros(TAIL_SILENCE_SAMPLES as int),
{
    let mut k: usize = 0;
    while k < TAIL_SILENCE_SAMPLES
        invariant
            k <= TAIL_SILENCE_SAMPLES,
            old(samples)@.len() + TAIL_SILENCE_SAMPLES <= usize::MAX,
            samples@ == old(samples)@ + zeros(k as int),
        decreases TAIL_SILENCE_SAMPLES - k,
    {
        samples.push(0i16);
        proof {
            assert(old(samples)@ + zeros(k as int) + seq![0i16] =~= old(samples)@ + zeros(
                k as int + 1,
            ));
        }
        k += 1;
    }
}

/// Emits the segments of one closed run `[start_sample, end_sample)` onto
/// `out`: the split, pad or pass-through policy of [`closed_segments`].
pub fn close_segment(
    start_sample: usize,
    end_sample: usize,
    pending: Vec<i16>,
    out: &mut Vec<SpeechSegment>,
)
    requires
        start_sample + pending@.len() <= usize::MAX,
    ensures
        seg_views(final(out)@) == seg_views(old(out)@) + closed_segments(
            start_sample as int,
            end_sample as int,
            pending@,
        ),
{
    let len = pending.len();
    if len > MAX_SEGMENT_SAMPLES {
        let mut offset: usize = 0;
        proof {
            assert(pending@.skip(0) =~= pending@);
        }
        while offset < len
            invariant
                len == pending@.len(),
                offset <= len,
                start_sample + len <= usize::MAX,
                seg_views(out@) + split_pieces(
                    start_sample as int + offset as int,
                    pending@.skip(offset as int),
                ) == seg_views(old(out)@) + split_pieces(start_sample as int, pending@),
            decreases len - offset,
        {
            let piece_len = if len - offset < SPLIT_PIECE_SAMPLES {
                len - offset
            } else {
                SPLIT_PIECE_SAMPLES
            };
            let mut piece: Vec<i16> = Vec::new();
            extend_samples(&mut piece, &pending.as_slice()[offset..offset + piece_len]);
            let seg = SpeechSegment {
                start_sample: start_sample + offset,
                end_sample: start_sample + offset + piece_len,
                samples: piece,
            };
            let ghost remaining = pending@.skip(offset as int);
            out.push(seg);
            proof {
                assert(piece_len as int == if remaining.len() <= SPLIT_PIECE_SAMPLES {
                    remaining.len() as int
                } else {
                    SPLIT_PIECE_SAMPLES as int
                });
                assert(seg@.samples =~= remaining.take(piece_len as int));
                if remaining.len() <= SPLIT_PIECE_SAMPLES {
                    assert(remaining.take(piece_len as int) =~= remaining);
                    assert(pending@.skip(offset as int + piece_len as int) =~= Seq::<i16>::empty());
                    assert(split_pieces(start_sample as int + offset as int, remaining) =~= seq![
                        seg@,
                    ]);
                } else {
                    assert(pending@.skip(offset as int + piece_len as int) =~= remaining.skip(
                        piece_len as int,
                    ));
                    assert(split_pieces(start_sample as int + offset as int, remaining) == seq![
                        seg@,
                    ] + split_pieces(
                        start_sample as int + offset as int + piece_len as int,
                        remaining.skip(piece_len as int),
                    ));
                }
                assert(seg_views(out@) =~= seg_views(out@.drop_last()) + seq![seg@]);
                assert(seg_views(out@) + split_pieces(
                    start_sample as int + offset as int + piece_len as int,
                    pending@.skip(offset as int + piece_len as int),
                ) =~= seg_views(old(out)@) + split_pieces(start_sample as int, pending@));
            }
            offset += piece_len;
        }
        proof {
            assert(pending@.skip(len as int) =~= Seq::<i16>::empty());
            assert(seg_views(out@) + Seq::<SegmentModel>::empty() =~= seg_views(out@));
        }
    } else if len < MIN_SEGMENT_SAMPLES {
        let mut padded = pending;
        let mut k: usize = 0;
        let pad = PADDED_SEGMENT_SAMPLES - len;
        while k < pad
            invariant
                pad == PADDED_SEGMENT_SAMPLES - len,
                len == padded@.len() - k,
                k <= pad,
                padded@ == padded@.take(len as int) + zeros(k as int),
                padded@.take(len as int) == pending@,
            decreases pad - k,
        {
            padded.push(0i16);
            proof {
                assert(padded@.take(len as int) =~= pending@);
                assert(padded@ =~= pending@ + zeros(k as int + 1));
            }
            k += 1;
        }
        let seg = SpeechSegment { start_sample, end_sample, samples: padded };
        out.push(seg);
        proof {
            assert(seg_views(out@) =~= seg_views(out@.drop_last()) + seq![seg@]);
            assert(seg_views(out@) =~= seg_views(old(out)@) + closed_segments(
                start_sample as int,
                end_sample as int,
                pending@,
            ));
        }
    } else {
        let seg = SpeechSegment { start_sample, end_sample, samples: pending };
        out.push(seg);
        proof {
            assert(seg_views(out@) =~= seg_views(out@.drop_last()) + seq![seg@]);
            assert(seg_views(out@) =~= seg_views(old(out)@) + closed_segments(
                start_sample as int,
                end_sample as int,
                pending@,
            ));
        }
    }
}

/// The segmentation state machine.
///
/// A caller feeds windows in buffer order with [`push_window`] together with
/// the classifier's outcome for each, and collects the emitted segments with
/// [`into_segments`]; [`segment`] runs the whole buffer in one call when all
/// outcomes are already at hand. The engine follows [`engine_step`] exactly,
/// one call per window.
///
/// [`push_window`]: SegmentationEngine::push_window
/// [`into_segments`]: SegmentationEngine::into_segments
/// [`segment`]: SegmentationEngine::segment
pub struct SegmentationEngine {
    in_speech: bool,
    start_sample: usize,
    pending: Vec<i16>,
    hangover_samples: usize,
    windows_done: usize,
    emitted: Vec<SpeechSegment>,
}

impl View for SegmentationEngine {
    type V = EngineModel;

    closed spec fn view(&self) -> EngineModel {
        EngineModel {
            in_speech: self.in_speech,
            start: self.start_sample as int,
            pending: self.pending@,
            hangover: self.hangover_samples as int,
            windows_done: self.windows_done as int,
            emitted: seg_views(self.emitted@),
        }
    }
}

impl SegmentationEngine {
    /// A fresh engine: no open segment, nothing emitted.
    pub fn new() -> (eng: SegmentationEngine)
        ensures
            eng@ == engine_init(),
            engine_inv(eng@),
    {
        let eng = SegmentationEngine {
            in_speech: false,
            start_sample: 0,
            pending: Vec::new(),
            hangover_samples: 0,
            windows_done: 0,
            emitted: Vec::new(),
        };
        proof {
            assert(eng@ =~= engine_init());
        }
        eng
    }

    /// Feeds the next window and the classifier's outcome for it: one
    /// [`engine_step`] transition.
    pub fn push_window(&mut self, window: &[i16], outcome: ClassifyOutcome)
        requires
            engine_inv(old(self)@),
            window@.len() <= CHUNK_SIZE,
            (old(self)@.windows_done + 1) * CHUNK_SIZE <= usize::MAX,
        ensures
            final(self)@ == engine_step(old(self)@, window@, outcome),
            engine_inv(final(self)@),
    {
        let t = self.windows_done * CHUNK_SIZE;
        match outcome {
            ClassifyOutcome::Score { permille } => {
                if permille > SPEECH_THRESHOLD_PERMILLE {
                    self.hangover_samples = 0;
                    extend_samples(&mut self.pending, window);
                    if !self.in_speech {
                        self.start_sample = t;
                        self.in_speech = true;
                    }
                } else {
                    if self.in_speech {
                        if self.hangover_samples < HANGOVER_LIMIT_SAMPLES {
                            self.hangover_samples = self.hangover_samples + CHUNK_SIZE;
                            extend_samples(&mut self.pending, window);
                        } else {
                            let run = self.pending.split_off(0);
                            proof {
                                assert(self.pending@ =~= Seq::<i16>::empty());
                                assert(run@ =~= old(self)@.pending);
                            }
                            close_segment(self.start_sample, t, run, &mut self.emitted);
                            self.in_speech = false;
                            self.hangover_samples = 0;
                        }
                    }
                }
            },
            ClassifyOutcome::StreamBoundary => {
                self.hangover_samples = 0;
                extend_samples(&mut self.pending, window);
                if !self.in_speech {
                    self.start_sample = t;
                    self.in_speech = true;
                }
            },
            ClassifyOutcome::Unclassified => {},
        }
        self.windows_done = self.windows_done + 1;
        proof {
            assert(self@ =~~= engine_step(old(self)@, window@, outcome));
        }
    }

    /// The segments emitted so far, in emission order, consuming the engine.
    pub fn into_segments(self) -> (segs: Vec<SpeechSegment>)
        ensures
            seg_views(segs@) == self@.emitted,
    {
        let SegmentationEngine { emitted, .. } = self;
        emitted
    }

    /// Segments a whole recording at once: appends the tail silence, cuts
    /// the padded buffer into windows, and runs one [`engine_step`] per
    /// window against the matching outcome.
    pub fn segment(samples: &Vec<i16>, outcomes: &Vec<ClassifyOutcome>) -> (segs: Vec<
        SpeechSegment,
    >)
        requires
            samples@.len() + TAIL_SILENCE_SAMPLES + CHUNK_SIZE <= usize::MAX,
            outcomes@.len() == window_count(samples@.len() + TAIL_SILENCE_SAMPLES as int),
        ensures
            seg_views(segs@) == engine_run(
                engine_init(),
                window_seq(samples@ + zeros(TAIL_SILENCE_SAMPLES as int)),
                outcomes@,
            ).emitted,
    {
        let mut padded: Vec<i16> = Vec::new();
        extend_samples(&mut padded, samples.as_slice());
        proof {
            assert(Seq::<i16>::empty() + samples@ =~= samples@);
        }
        append_tail_silence(&mut padded);
        let ghost ws = window_seq(padded@);
        let total = outcomes.len();
        let mut eng = SegmentationEngine::new();
        let mut i: usize = 0;
        proof {
            assert(outcomes@.take(0) =~= Seq::<ClassifyOutcome>::empty());
        }
        while i < total
            invariant
                total == outcomes@.len(),
                i <= total,
                padded@ == samples@ + zeros(TAIL_SILENCE_SAMPLES as int),
                padded@.len() + CHUNK_SIZE <= usize::MAX,
                total == window_count(padded@.len() as int),
                ws == window_seq(padded@),
                engine_inv(eng@),
                eng@ == engine_run(engine_init(), ws, outcomes@.take(i as int)),
            decreases total - i,
        {
            proof {
                lemma_run_windows_done(engine_init(), ws, outcomes@.take(i as int));
                lemma_window_count_bounds(padded@.len() as int, i as int);
            }
            let lo = i * CHUNK_SIZE;
            let hi = if lo + CHUNK_SIZE <= padded.len() {
                lo + CHUNK_SIZE
            } else {
                padded.len()
            };
            let outcome = outcomes[i];
            eng.push_window(&padded.as_slice()[lo..hi], outcome);
            proof {
                assert(padded@.subrange(lo as int, hi as int) =~= window_at(padded@, i as int));
                lemma_run_snoc(engine_init(), ws, outcomes@, i as int);
                assert(outcomes@.take(i as int + 1).take(i as int) =~= outcomes@.take(i as int));
            }
            i += 1;
        }
        proof {
            assert(outcomes@.take(total as int) =~= outcomes@);
        }
        eng.into_segments()
    }
}

/// Windows processed by a run: one per outcome, as long as windows last.
proof fn lemma_run_windows_done(m: EngineModel, ws: Seq<Seq<i16>>, os: Seq<ClassifyOutcome>)
    requires
        os.len() <= ws.len(),
    ensures
        engine_run(m, ws, os).windows_done == m.windows_done + os.len(),
    decreases os.len(),
{
    if os.len() > 0 {
        lemma_run_windows_done(engine_step(m, ws[0], os[0]), ws.drop_first(), os.drop_first());
    }
}

/// Every window index below the count starts strictly inside the buffer,
/// and the count times the window size stays within one window of the
/// buffer's end.
proof fn lemma_window_count_bounds(len: int, i: int)
    requires
        0 <= i < window_count(len),
    ensures
        i * CHUNK_SIZE < len,
        (i + 1) * CHUNK_SIZE <= len + CHUNK_SIZE - 1,
{
    assert(i + 1 <= (len + CHUNK_SIZE - 1) / CHUNK_SIZE as int);
    assert((i + 1) * CHUNK_SIZE <= ((len + CHUNK_SIZE - 1) / CHUNK_SIZE as int) * CHUNK_SIZE) by (nonlinear_arith)
        requires
            i + 1 <= (len + CHUNK_SIZE - 1) / CHUNK_SIZE as int,
    ;
    assert(((len + CHUNK_SIZE - 1) / CHUNK_SIZE as int) * CHUNK_SIZE <= len + CHUNK_SIZE - 1) by (nonlinear_arith);
}

/// The `k`-th 2 s piece of an over-long run, as cut by [`split_pieces`]:
/// it starts `k` pieces after `start` and carries the matching slice of the
/// run, so that no sample is dropped or duplicated.
pub open spec fn piece_of(start: int, samples: Seq<i16>, k: int) -> SegmentModel {
    let lo = k * (SPLIT_PIECE_SAMPLES as int);
    let hi = if lo + SPLIT_PIECE_SAMPLES <= samples.len() {
        lo + SPLIT_PIECE_SAMPLES as int
    } else {
        samples.len() as int
    };
    SegmentModel { start: start + lo, end: start + hi, samples: samples.subrange(lo, hi) }
}

/// Splitting an over-long run yields exactly one piece per started 2 s
/// span - a run of `n` samples yields `ceil(n / 32000)` pieces - and piece
/// `k` is [`piece_of`] `k`: the pieces' start positions form an arithmetic
/// sequence with step 2 s from the run's start, every piece is at most 2 s
/// long and not empty, and together the pieces carry the run unchanged.
pub proof fn lemma_split_pieces_form(start: int, samples: Seq<i16>)
    ensures
        split_pieces(start, samples).len() == (samples.len() + SPLIT_PIECE_SAMPLES - 1) / (
        SPLIT_PIECE_SAMPLES as int),
        forall|k: int|
            0 <= k < split_pieces(start, samples).len() ==> split_pieces(start, samples)[k]
                == piece_of(start, samples, k),
    decreases samples.len(),
{
    let segs = split_pieces(start, samples);
    if samples.len() == 0 {
    } else if samples.len() <= SPLIT_PIECE_SAMPLES {
        assert(samples.subrange(0, samples.len() as int) =~= samples);
        assert(segs[0] == piece_of(start, samples, 0));
    } else {
        let tail = samples.skip(SPLIT_PIECE_SAMPLES as int);
        lemma_split_pieces_form(start + SPLIT_PIECE_SAMPLES as int, tail);
        let rest = split_pieces(start + SPLIT_PIECE_SAMPLES as int, tail);
        assert(samples.take(SPLIT_PIECE_SAMPLES as int) =~= samples.subrange(
            0,
            SPLIT_PIECE_SAMPLES as int,
        ));
        assert(segs[0] == piece_of(start, samples, 0));
        assert forall|k: int| 1 <= k < segs.len() implies segs[k] == piece_of(
            start,
            samples,
            k,
        ) by {
            assert(segs[k] == rest[k - 1]);
            assert(rest[k - 1] == piece_of(start + SPLIT_PIECE_SAMPLES as int, tail, k - 1));
            let lo = k * (SPLIT_PIECE_SAMPLES as int);
            let lot = (k - 1) * (SPLIT_PIECE_SAMPLES as int);
            assert(lot + SPLIT_PIECE_SAMPLES == lo);
            let hit = if lot + SPLIT_PIECE_SAMPLES <= tail.len() {
                lot + SPLIT_PIECE_SAMPLES as int
            } else {
                tail.len() as int
            };
            assert(tail.subrange(lot, hit) =~= samples.subrange(
                lot + SPLIT_PIECE_SAMPLES as int,
                hit + SPLIT_PIECE_SAMPLES as int,
            ));
        }
        assert(segs.len() == 1 + (tail.len() + SPLIT_PIECE_SAMPLES - 1) / (
        SPLIT_PIECE_SAMPLES as int));
    }
}

/// Closing a run shorter than the 1.01 s minimum emits exactly one segment:
/// its start and end positions are the run's own, unchanged, its audio is
/// the run followed by zeros, and its final sample count is the fixed padded
/// length of slightly over one second.
pub proof fn lemma_close_pads_short_run(start: int, end: int, pending: Seq<i16>)
    requires
        pending.len() < MIN_SEGMENT_SAMPLES,
    ensures
        closed_segments(start, end, pending).len() == 1,
        closed_segments(start, end, pending)[0].start == start,
        closed_segments(start, end, pending)[0].end == end,
        closed_segments(start, end, pending)[0].samples.len() == PADDED_SEGMENT_SAMPLES,
        closed_segments(start, end, pending)[0].samples.take(pending.len() as int) == pending,
        forall|i: int|
            pending.len() <= i < PADDED_SEGMENT_SAMPLES ==> closed_segments(
                start,
                end,
                pending,
            )[0].samples[i] == 0i16,
{
    let s = closed_segments(start, end, pending)[0].samples;
    assert(s.take(pending.len() as int) =~= pending);
}

/// An emitted track is ordered: every segment spans forward, and no segment
/// begins before the previous one ends.
pub open spec fn segments_ordered(segs: Seq<SegmentModel>) -> bool {
    &&& forall|k: int| 0 <= k < segs.len() ==> #[trigger] segs[k].start < segs[k].end
    &&& forall|k: int| 0 <= k < segs.len() - 1 ==> #[trigger] segs[k].end <= segs[k + 1].start
}

/// Closing a run bounded by `[start, end)` emits at least one segment, all
/// ordered, lying between `start` and `end`.
proof fn lemma_closed_segments_bounds(start: int, end: int, pending: Seq<i16>)
    requires
        start < end,
        start + pending.len() <= end,
    ensures
        closed_segments(start, end, pending).len() > 0,
        segments_ordered(closed_segments(start, end, pending)),
        forall|k: int|
            0 <= k < closed_segments(start, end, pending).len() ==> {
                let s = #[trigger] closed_segments(start, end, pending)[k];
                start <= s.start && s.end <= end
            },
{
    let segs = closed_segments(start, end, pending);
    if pending.len() > MAX_SEGMENT_SAMPLES {
        lemma_split_pieces_form(start, pending);
        assert forall|k: int| 0 <= k < segs.len() implies start <= #[trigger] segs[k].start
            && segs[k].end <= end && segs[k].start < segs[k].end by {
            assert(segs[k] == piece_of(start, pending, k));
            assert(0 <= k * (SPLIT_PIECE_SAMPLES as int)) by (nonlinear_arith)
                requires
                    k >= 0,
            ;
            assert(k * (SPLIT_PIECE_SAMPLES as int) < pending.len()) by {
                assert(k + 1 <= (pending.len() + SPLIT_PIECE_SAMPLES - 1) / (
                SPLIT_PIECE_SAMPLES as int));
                assert((k + 1) * (SPLIT_PIECE_SAMPLES as int) <= ((pending.len()
                    + SPLIT_PIECE_SAMPLES - 1) / (SPLIT_PIECE_SAMPLES as int)) * (
                SPLIT_PIECE_SAMPLES as int)) by (nonlinear_arith)
                    requires
                        k + 1 <= (pending.len() + SPLIT_PIECE_SAMPLES - 1) / (
                        SPLIT_PIECE_SAMPLES as int),
                ;
                assert(((pending.len() + SPLIT_PIECE_SAMPLES - 1) / (SPLIT_PIECE_SAMPLES as int))
                    * (SPLIT_PIECE_SAMPLES as int) <= pending.len() + SPLIT_PIECE_SAMPLES - 1)
                    by (nonlinear_arith);
            }
        }
        assert forall|k: int| 0 <= k < segs.len() - 1 implies #[trigger] segs[k].end <= segs[k
            + 1].start by {
            assert(segs[k] == piece_of(start, pending, k));
            assert(segs[k + 1] == piece_of(start, pending, k + 1));
            assert((k + 1) * (SPLIT_PIECE_SAMPLES as int) == k * (SPLIT_PIECE_SAMPLES as int)
                + SPLIT_PIECE_SAMPLES) by (nonlinear_arith);
        }
    }
}

/// Ordered tracks concatenate to an ordered track when the first ends
/// before the second begins.
proof fn lemma_ordered_append(a: Seq<SegmentModel>, b: Seq<SegmentModel>)
    requires
        segments_ordered(a),
        segments_ordered(b),
        a.len() > 0 && b.len() > 0 ==> a.last().end <= b[0].start,
    ensures
        segments_ordered(a + b),
{
    let c = a + b;
    assert forall|k: int| 0 <= k < c.len() implies #[trigger] c[k].start < c[k].end by {
        if k < a.len() {
            assert(c[k] == a[k]);
        } else {
            assert(c[k] == b[k - a.len()]);
        }
    }
    assert forall|k: int| 0 <= k < c.len() - 1 implies #[trigger] c[k].end <= c[k + 1].start by {
        if k + 1 < a.len() {
            assert(c[k] == a[k] && c[k + 1] == a[k + 1]);
        } else if k >= a.len() {
            assert(c[k] == b[k - a.len()] && c[k + 1] == b[k + 1 - a.len()]);
        } else {
            assert(c[k] == a[a.len() - 1] && c[k + 1] == b[0]);
        }
    }
}

/// Where the next segment may begin: after the last window when the engine
/// is idle, and no earlier than the open segment's start when it is not.
pub open spec fn frontier(m: EngineModel) -> int {
    if m.in_speech {
        m.start
    } else {
        window_time(m.windows_done)
    }
}

/// The ordering invariant every run maintains: the emitted track is
/// ordered and ends before the frontier, and an open segment begins before
/// the current window.
pub open spec fn order_inv(m: EngineModel) -> bool {
    &&& engine_inv(m)
    &&& segments_ordered(m.emitted)
    &&& m.emitted.len() > 0 ==> m.emitted.last().end <= frontier(m)
    &&& m.in_speech ==> m.start < window_time(m.windows_done)
}

/// One window preserves the ordering invariant, whatever its outcome.
#[verifier::rlimit(50)]
proof fn lemma_step_keeps_order(m: EngineModel, w: Seq<i16>, o: ClassifyOutcome)
    requires
        order_inv(m),
        w.len() <= CHUNK_SIZE,
    ensures
        order_inv(engine_step(m, w, o)),
{
    let t = window_time(m.windows_done);
    let post = engine_step(m, w, o);
    assert(window_time(m.windows_done + 1) == t + CHUNK_SIZE);
    if is_silence_outcome(o) && m.in_speech && m.hangover >= HANGOVER_LIMIT_SAMPLES {
        lemma_closed_segments_bounds(m.start, t, m.pending);
        let closed = closed_segments(m.start, t, m.pending);
        lemma_ordered_append(m.emitted, closed);
        assert(post.emitted.last() == closed.last());
        let kk = closed.len() - 1;
        let s = closed_segments(m.start, t, m.pending)[kk];
        assert(m.start <= s.start && s.end <= t);
        assert(closed.last().end <= t);
    }
}

/// The ordering guarantee of segmentation: whatever the classifier
/// reported for each window, the segments a run emits are strictly forward
/// spans, emitted in increasing start order, and no two of them overlap.
pub proof fn lemma_run_ordered(ws: Seq<Seq<i16>>, os: Seq<ClassifyOutcome>)
    requires
        forall|i: int| 0 <= i < ws.len() ==> #[trigger] ws[i].len() <= CHUNK_SIZE,
        os.len() <= ws.len(),
    ensures
        segments_ordered(engine_run(engine_init(), ws, os).emitted),
{
    lemma_run_keeps_order(engine_init(), ws, os);
}

/// The ordering invariant is preserved by a whole run.
proof fn lemma_run_keeps_order(m: EngineModel, ws: Seq<Seq<i16>>, os: Seq<ClassifyOutcome>)
    requires
        order_inv(m),
        forall|i: int| 0 <= i < ws.len() ==> #[trigger] ws[i].len() <= CHUNK_SIZE,
        os.len() <= ws.len(),
    ensures
        order_inv(engine_run(m, ws, os)),
    decreases os.len(),
{
    if os.len() > 0 && ws.len() > 0 {
        lemma_step_keeps_order(m, ws[0], os[0]);
        lemma_run_keeps_order(engine_step(m, ws[0], os[0]), ws.drop_first(), os.drop_first());
    }
}

/// The span invariant a run over full windows without unclassified
/// failures maintains: an open run's samples account for its whole span,
/// and every emitted segment spans at most 60 s and no more than its
/// sample count.
pub open spec fn span_inv(m: EngineModel) -> bool {
    &&& engine_inv(m)
    &&& m.in_speech ==> m.start + m.pending.len() == window_time(m.windows_done)
    &&& forall|k: int|
        0 <= k < m.emitted.len() ==> (#[trigger] m.emitted[k]).end - m.emitted[k].start
            <= m.emitted[k].samples.len() && m.emitted[k].end - m.emitted[k].start
            <= MAX_SEGMENT_SAMPLES
}

/// One full window that is not unclassified preserves the span invariant.
proof fn lemma_step_keeps_spans(m: EngineModel, w: Seq<i16>, o: ClassifyOutcome)
    requires
        span_inv(m),
        w.len() == CHUNK_SIZE,
        !(o is Unclassified),
    ensures
        span_inv(engine_step(m, w, o)),
{
    let t = window_time(m.windows_done);
    let post = engine_step(m, w, o);
    assert(window_time(m.windows_done + 1) == t + CHUNK_SIZE);
    if is_silence_outcome(o) && m.in_speech && m.hangover >= HANGOVER_LIMIT_SAMPLES {
        let closed = closed_segments(m.start, t, m.pending);
        assert(t - m.start == m.pending.len());
        if m.pending.len() > MAX_SEGMENT_SAMPLES {
            lemma_split_pieces_form(m.start, m.pending);
            assert forall|k: int| 0 <= k < closed.len() implies (#[trigger] closed[k]).end
                - closed[k].start <= closed[k].samples.len() && closed[k].end - closed[k].start
                <= MAX_SEGMENT_SAMPLES by {
                assert(closed[k] == piece_of(m.start, m.pending, k));
            }
        }
        assert forall|k: int| 0 <= k < post.emitted.len() implies (#[trigger] post.emitted[k]).end
            - post.emitted[k].start <= post.emitted[k].samples.len() && post.emitted[k].end
            - post.emitted[k].start <= MAX_SEGMENT_SAMPLES by {
            if k < m.emitted.len() {
                assert(post.emitted[k] == m.emitted[k]);
            } else {
                assert(post.emitted[k] == closed[k - m.emitted.len()]);
            }
        }
    }
}

/// The span guarantee of segmentation. Over full windows - a buffer whose
/// padded length is a multiple of the window size - and with no
/// unclassified failures, every emitted segment spans at most 60 s of the
/// timeline, and its sample count covers its whole span: zero-padding may
/// add samples beyond the span, but a segment never claims time its samples
/// do not cover.
pub proof fn lemma_run_bounds_segment_spans(ws: Seq<Seq<i16>>, os: Seq<ClassifyOutcome>)
    requires
        forall|i: int| 0 <= i < ws.len() ==> (#[trigger] ws[i]).len() == CHUNK_SIZE,
        forall|i: int| 0 <= i < os.len() ==> !(#[trigger] os[i] is Unclassified),
        os.len() <= ws.len(),
    ensures
        forall|k: int|
            0 <= k < engine_run(engine_init(), ws, os).emitted.len() ==> {
                let s = #[trigger] engine_run(engine_init(), ws, os).emitted[k];
                s.end - s.start <= s.samples.len() && s.end - s.start <= MAX_SEGMENT_SAMPLES
            },
{
    lemma_run_keeps_spans(engine_init(), ws, os);
}

/// The span invariant is preserved by a whole run.
proof fn lemma_run_keeps_spans(m: EngineModel, ws: Seq<Seq<i16>>, os: Seq<ClassifyOutcome>)
    requires
        span_inv(m),
        forall|i: int| 0 <= i < ws.len() ==> (#[trigger] ws[i]).len() == CHUNK_SIZE,
        forall|i: int| 0 <= i < os.len() ==> !(#[trigger] os[i] is Unclassified),
        os.len() <= ws.len(),
    ensures
        span_inv(engine_run(m, ws, os)),
    decreases os.len(),
{
    if os.len() > 0 && ws.len() > 0 {
        lemma_step_keeps_spans(m, ws[0], os[0]);
        lemma_run_keeps_spans(engine_step(m, ws[0], os[0]), ws.drop_first(), os.drop_first());
    }
}

/// The all-silence guarantee: when every window is scored at or below the
/// speech threshold, a run emits no segments at all.
pub proof fn lemma_all_silence_emits_nothing(ws: Seq<Seq<i16>>, os: Seq<ClassifyOutcome>)
    requires
        forall|i: int| 0 <= i < os.len() ==> is_silence_outcome(#[trigger] os[i]),
    ensures
        engine_run(engine_init(), ws, os).emitted == Seq::<SegmentModel>::empty(),
{
    lemma_silence_keeps_idle(engine_init(), ws, os);
}

/// Silent windows leave an idle engine exactly as it was; only the window
/// count advances, by one per window-outcome pair.
proof fn lemma_silence_keeps_idle(m: EngineModel, ws: Seq<Seq<i16>>, os: Seq<ClassifyOutcome>)
    requires
        !m.in_speech,
        forall|i: int| 0 <= i < os.len() ==> is_silence_outcome(#[trigger] os[i]),
    ensures
        engine_run(m, ws, os) == (EngineModel {
            windows_done: m.windows_done + (if os.len() <= ws.len() {
                os.len() as int
            } else {
                ws.len() as int
            }),
            ..m
        }),
    decreases os.len(),
{
    if os.len() > 0 && ws.len() > 0 {
        lemma_silence_keeps_idle(engine_step(m, ws[0], os[0]), ws.drop_first(), os.drop_first());
    } else {
        assert(engine_run(m, ws, os) =~~= (EngineModel { windows_done: m.windows_done + 0, ..m }));
    }
}

/// A run is the run of a prefix continued over what remains.
proof fn lemma_run_append(m: EngineModel, ws: Seq<Seq<i16>>, os: Seq<ClassifyOutcome>, i: int)
    requires
        0 <= i <= os.len(),
        os.len() <= ws.len(),
    ensures
        engine_run(m, ws, os) == engine_run(
            engine_run(m, ws, os.take(i)),
            ws.skip(i),
            os.skip(i),
        ),
    decreases i,
{
    if i == 0 {
        assert(os.take(0) =~= Seq::<ClassifyOutcome>::empty());
        assert(ws.skip(0) =~= ws);
        assert(os.skip(0) =~= os);
    } else {
        let m1 = engine_step(m, ws[0], os[0]);
        assert(os.take(i).drop_first() =~= os.drop_first().take(i - 1));
        assert(ws.drop_first().skip(i - 1) =~= ws.skip(i));
        assert(os.drop_first().skip(i - 1) =~= os.skip(i));
        lemma_run_append(m1, ws.drop_first(), os.drop_first(), i - 1);
    }
}

/// Speech windows keep a segment open: the first opens one at its own
/// position if none is, and each contributes one full window of samples.
proof fn lemma_speech_run(m: EngineModel, ws: Seq<Seq<i16>>, os: Seq<ClassifyOutcome>)
    requires
        forall|i: int| 0 <= i < os.len() ==> is_speech_outcome(#[trigger] os[i]),
        1 <= os.len() <= ws.len(),
        forall|i: int| 0 <= i < ws.len() ==> (#[trigger] ws[i]).len() == CHUNK_SIZE,
    ensures
        ({
            let r = engine_run(m, ws, os);
            &&& r.in_speech
            &&& r.hangover == 0
            &&& r.start == (if m.in_speech {
                m.start
            } else {
                window_time(m.windows_done)
            })
            &&& r.pending.len() == m.pending.len() + os.len() * CHUNK_SIZE
            &&& r.emitted == m.emitted
            &&& r.windows_done == m.windows_done + os.len()
        }),
    decreases os.len(),
{
    let m1 = engine_step(m, ws[0], os[0]);
    if os.len() > 1 {
        assert forall|i: int| 0 <= i < os.drop_first().len() implies is_speech_outcome(
            #[trigger] os.drop_first()[i],
        ) by {
            assert(os.drop_first()[i] == os[i + 1]);
        }
        assert forall|i: int| 0 <= i < ws.drop_first().len() implies (#[trigger] ws.drop_first()[i]).len()
            == CHUNK_SIZE by {
            assert(ws.drop_first()[i] == ws[i + 1]);
        }
        lemma_speech_run(m1, ws.drop_first(), os.drop_first());
    } else {
        assert(engine_run(m, ws, os) == engine_run(
            m1,
            ws.drop_first(),
            os.drop_first(),
        ));
        assert(os.drop_first().len() == 0);
    }
}

/// True when the outcomes hold exactly one burst of speech, on the windows
/// `[a, b)`, with at least three windows of silence after it.
pub open spec fn single_burst(os: Seq<ClassifyOutcome>, a: int, b: int) -> bool {
    &&& 0 <= a < b
    &&& b + 3 <= os.len()
    &&& forall|i: int| 0 <= i < os.len() && !(a <= i < b) ==> is_silence_outcome(#[trigger] os[i])
    &&& forall|i: int| a <= i < b ==> is_speech_outcome(#[trigger] os[i])
}

/// The single-burst guarantee. When the classifier reports exactly one
/// burst of speech, on the windows `[a, b)`, and the burst is short enough
/// not to be force-split, the run emits exactly one segment: it starts at
/// the burst's first window and ends two hangover windows past the burst's
/// last, so it covers the whole burst and no more than 200 ms beyond it.
pub proof fn lemma_single_burst_one_segment(
    ws: Seq<Seq<i16>>,
    os: Seq<ClassifyOutcome>,
    a: int,
    b: int,
)
    requires
        single_burst(os, a, b),
        os.len() <= ws.len(),
        forall|i: int| 0 <= i < ws.len() ==> (#[trigger] ws[i]).len() == CHUNK_SIZE,
        (b - a + 2) * CHUNK_SIZE <= MAX_SEGMENT_SAMPLES,
    ensures
        engine_run(engine_init(), ws, os).emitted.len() == 1,
        engine_run(engine_init(), ws, os).emitted[0].start == window_time(a),
        engine_run(engine_init(), ws, os).emitted[0].end == window_time(b + 2),
{
    let m0 = engine_init();
    // The silent prefix [0, a) only advances the window count.
    lemma_run_append(m0, ws, os, a);
    let m1 = engine_run(m0, ws, os.take(a));
    lemma_silence_keeps_idle(m0, ws, os.take(a));
    assert(m1 == (EngineModel { windows_done: a, ..m0 }));
    // The burst [a, b) opens one segment at window a and keeps it open.
    let ws1 = ws.skip(a);
    let os1 = os.skip(a);
    lemma_run_append(m1, ws1, os1, b - a);
    let m2 = engine_run(m1, ws1, os1.take(b - a));
    lemma_speech_run(m1, ws1, os1.take(b - a));
    assert(m2.in_speech && m2.hangover == 0 && m2.start == window_time(a));
    assert(m2.pending.len() == (b - a) * CHUNK_SIZE);
    assert(m2.emitted == Seq::<SegmentModel>::empty());
    assert(m2.windows_done == b);
    // Two silent windows fill the hangover; the third closes the segment.
    let ws2 = ws1.skip(b - a);
    let os2 = os1.skip(b - a);
    assert(ws2 =~= ws.skip(b));
    assert(os2 =~= os.skip(b));
    lemma_run_append(m2, ws2, os2, 3);
    lemma_run_snoc(m2, ws2, os2, 0);
    lemma_run_snoc(m2, ws2, os2, 1);
    lemma_run_snoc(m2, ws2, os2, 2);
    assert(os2.take(0) =~= Seq::<ClassifyOutcome>::empty());
    let s1 = engine_step(m2, ws2[0], os2[0]);
    let s2 = engine_step(s1, ws2[1], os2[1]);
    let s3 = engine_step(s2, ws2[2], os2[2]);
    assert(engine_run(m2, ws2, os2.take(3)) == s3);
    assert(is_silence_outcome(os2[0]) && is_silence_outcome(os2[1]) && is_silence_outcome(os2[2]));
    assert(s1.hangover == CHUNK_SIZE && s1.pending.len() == (b - a + 1) * CHUNK_SIZE);
    assert(s2.hangover == 2 * CHUNK_SIZE && s2.pending.len() == (b - a + 2) * CHUNK_SIZE);
    assert(s3.emitted == closed_segments(
        window_time(a),
        window_time(b + 2),
        s2.pending,
    ));
    assert(s3.emitted.len() == 1 && s3.emitted[0].start == window_time(a) && s3.emitted[0].end
        == window_time(b + 2));
    assert(!s3.in_speech);
    // The silence after the close changes nothing more.
    lemma_silence_keeps_idle(s3, ws2.skip(3), os2.skip(3));
}

/// Running one more outcome is one more step: the fold over a prefix of
/// length `i + 1` is the step applied to the fold over the prefix of length
/// `i`.
proof fn lemma_run_snoc(m: EngineModel, ws: Seq<Seq<i16>>, os: Seq<ClassifyOutcome>, i: int)
    requires
        0 <= i < os.len(),
        os.len() <= ws.len(),
    ensures
        engine_run(m, ws, os.take(i + 1)) == engine_step(
            engine_run(m, ws, os.take(i)),
            ws[i],
            os[i],
        ),
    decreases i,
{
    if i == 0 {
        assert(os.take(1).drop_first() =~= Seq::<ClassifyOutcome>::empty());
        assert(os.take(0) =~= Seq::<ClassifyOutcome>::empty());
        assert(engine_run(m, ws, os.take(1)) == engine_run(
            engine_step(m, ws[0], os[0]),
            ws.drop_first(),
            os.take(1).drop_first(),
        ));
    } else {
        let m1 = engine_step(m, ws[0], os[0]);
        assert(os.take(i + 1).drop_first() =~= os.drop_first().take(i));
        assert(os.take(i).drop_first() =~= os.drop_first().take(i - 1));
        lemma_run_snoc(m1, ws.drop_first(), os.drop_first(), i - 1);
        assert(ws.drop_first()[i - 1] == ws[i]);
        assert(os.drop_first()[i - 1] == os[i]);
    }
}

} // verus!
