//! Assembly of per-segment transcript fragments into a subtitle track.
//!
//! The transcription engine returns, for each speech segment, fragments whose
//! timestamps are 10 ms ticks relative to the segment's own start. Assembly
//! remaps each fragment onto the absolute recording timeline - clamping the
//! end so it never passes the owning segment's end - strips a configured
//! prompt prefix together with the separators that follow it, drops fragments
//! whose text is then empty, and numbers the surviving entries 1, 2, 3, ...
//! in emission order.

use vstd::prelude::*;

use crate::segment::sample_to_ms;
use crate::segment::SpeechSegment;
use crate::segment::SAMPLES_PER_MS;

verus! {

/// Milliseconds per transcription tick.
pub const MS_PER_TICK: u32 = 10;

/// One fragment of raw transcription output for a segment: tick timestamps
/// relative to the segment start, and the recognized text.
#[derive(Debug, Clone)]
pub struct TranscriptFragment {
    pub start_tick: i64,
    pub end_tick: i64,
    pub text: Vec<char>,
}

/// One subtitle: a positive sequence number, absolute millisecond
/// timestamps, and the text shown.
#[derive(Debug, Clone)]
pub struct SubtitleEntry {
    pub index: usize,
    pub start_ms: u32,
    pub end_ms: u32,
    pub text: Vec<char>,
}

/// Characters stripped after a matched prompt prefix: every character with
/// the Unicode White_Space property, and the comma in its ASCII and
/// full-width forms.
pub open spec fn is_separator_char(c: char) -> bool {
    ||| c == '\t'
    ||| c == '\n'
    ||| c == '\u{000b}'
    ||| c == '\u{000c}'
    ||| c == '\r'
    ||| c == ' '
    ||| c == '\u{0085}'
    ||| c == '\u{00a0}'
    ||| c == '\u{1680}'
    ||| c == '\u{2000}'
    ||| c == '\u{2001}'
    ||| c == '\u{2002}'
    ||| c == '\u{2003}'
    ||| c == '\u{2004}'
    ||| c == '\u{2005}'
    ||| c == '\u{2006}'
    ||| c == '\u{2007}'
    ||| c == '\u{2008}'
    ||| c == '\u{2009}'
    ||| c == '\u{200a}'
    ||| c == '\u{2028}'
    ||| c == '\u{2029}'
    ||| c == '\u{202f}'
    ||| c == '\u{205f}'
    ||| c == '\u{3000}'
    ||| c == ','
    ||| c == '\u{ff0c}'
}

/// Executable test for [`is_separator_char`].
pub fn is_separator(c: char) -> (b: bool)
    ensures
        b == is_separator_char(c),
{
    match c {
        '\t' | '\n' | '\u{000b}' | '\u{000c}' | '\r' | ' ' | '\u{0085}' | '\u{00a0}'
        | '\u{1680}' | '\u{2000}' | '\u{2001}' | '\u{2002}' | '\u{2003}' | '\u{2004}'
        | '\u{2005}' | '\u{2006}' | '\u{2007}' | '\u{2008}' | '\u{2009}' | '\u{200a}'
        | '\u{2028}' | '\u{2029}' | '\u{202f}' | '\u{205f}' | '\u{3000}' | ',' | '\u{ff0c}' => true,
        _ => false,
    }
}

/// The text with every leading separator removed.
pub open spec fn strip_leading_separators(s: Seq<char>) -> Seq<char>
    decreases s.len(),
{
    if s.len() > 0 && is_separator_char(s[0]) {
        strip_leading_separators(s.drop_first())
    } else {
        s
    }
}

/// The fragment text after prompt stripping: when the prompt is non-empty
/// and the text begins with it, the prompt and the separators that follow it
/// are removed; otherwise the text is unchanged.
pub open spec fn strip_prompt_spec(text: Seq<char>, prompt: Seq<char>) -> Seq<char> {
    if prompt.len() > 0 && text.len() >= prompt.len() && text.take(prompt.len() as int)
        == prompt {
        strip_leading_separators(text.skip(prompt.len() as int))
    } else {
        text
    }
}

/// Appends `src[from..]` to `out`.
fn push_tail(src: &Vec<char>, from: usize, out: &mut Vec<char>)
    requires
        from <= src@.len(),
        old(out)@.len() + src@.len() <= usize::MAX,
    ensures
        final(out)@ == old(out)@ + src@.skip(from as int),
{
    let n = src.len();
    let mut k = from;
    while k < n
        invariant
            from <= k <= n,
            n == src@.len(),
            out@ == old(out)@ + src@.subrange(from as int, k as int),
        decreases n - k,
    {
        out.push(src[k]);
        proof {
            assert(old(out)@ + src@.subrange(from as int, k as int) + seq![src@[k as int]]
                =~= old(out)@ + src@.subrange(from as int, k as int + 1));
        }
        k += 1;
    }
    proof {
        assert(src@.subrange(from as int, n as int) =~= src@.skip(from as int));
    }
}

/// Strips the configured prompt, and the separators behind it, off a
/// fragment's text: exactly [`strip_prompt_spec`].
pub fn strip_prompt(text: &Vec<char>, prompt: &Vec<char>) -> (out: Vec<char>)
    ensures
        out@ == strip_prompt_spec(text@, prompt@),
{
    let n = text.len();
    let p = prompt.len();
    let mut is_prefix = p > 0 && n >= p;
    let mut j: usize = 0;
    while j < p
        invariant
            j <= p,
            p == prompt@.len(),
            n == text@.len(),
            is_prefix == (p > 0 && n >= p && (forall|q: int|
                0 <= q < j ==> text@[q] == prompt@[q])),
        decreases p - j,
    {
        if is_prefix && text[j] != prompt[j] {
            is_prefix = false;
        }
        j += 1;
    }
    if is_prefix {
        proof {
            assert(text@.take(p as int) =~= prompt@);
        }
        let mut k: usize = p;
        while k < n && is_separator(text[k])
            invariant
                p <= k <= n,
                n == text@.len(),
                strip_leading_separators(text@.skip(p as int)) == strip_leading_separators(
                    text@.skip(k as int),
                ),
            decreases n - k,
        {
            proof {
                assert(text@.skip(k as int).drop_first() =~= text@.skip(k as int + 1));
            }
            k += 1;
        }
        proof {
            if k == n {
                assert(text@.skip(k as int) =~= Seq::<char>::empty());
            }
            assert(strip_leading_separators(text@.skip(k as int)) == text@.skip(k as int));
        }
        let mut out: Vec<char> = Vec::new();
        push_tail(text, k, &mut out);
        proof {
            assert(Seq::<char>::empty() + text@.skip(k as int) =~= text@.skip(k as int));
        }
        out
    } else {
        let mut out: Vec<char> = Vec::new();
        push_tail(text, 0, &mut out);
        proof {
            assert(Seq::<char>::empty() + text@.skip(0) =~= text@);
        }
        out
    }
}

/// A segment whose millisecond span is usable: it runs forward and its end
/// fits a 32-bit millisecond count.
pub open spec fn seg_fits(seg: SpeechSegment) -> bool {
    &&& seg@.start <= seg@.end
    &&& sample_to_ms(seg@.end) <= u32::MAX
}

/// A fragment consistent with the transcription collaborator's contract for
/// its segment: ticks run forward from the waveform start, and the
/// fragment's start lies within the segment's span.
pub open spec fn fragment_ok(f: TranscriptFragment, seg: SpeechSegment) -> bool {
    &&& 0 <= f.start_tick <= f.end_tick
    &&& sample_to_ms(seg@.start) + f.start_tick * MS_PER_TICK <= sample_to_ms(seg@.end)
}

/// The absolute entry one fragment yields for its segment, before empty
/// texts are dropped: start remapped onto the recording timeline, end
/// remapped and clamped to the segment's end, text prompt-stripped.
pub open spec fn fragment_entry(seg: SpeechSegment, f: TranscriptFragment, prompt: Seq<char>) -> (
    int,
    int,
    Seq<char>,
) {
    let s = sample_to_ms(seg@.start) + f.start_tick * MS_PER_TICK;
    let e_raw = sample_to_ms(seg@.start) + f.end_tick * MS_PER_TICK;
    let e = if sample_to_ms(seg@.end) < e_raw {
        sample_to_ms(seg@.end)
    } else {
        e_raw
    };
    (s, e, strip_prompt_spec(f.text@, prompt))
}

/// The `(start, end, text)` triples one segment contributes, in fragment
/// order, fragments whose stripped text is empty dropped.
pub open spec fn segment_entries(
    seg: SpeechSegment,
    frags: Seq<TranscriptFragment>,
    prompt: Seq<char>,
) -> Seq<(int, int, Seq<char>)>
    decreases frags.len(),
{
    if frags.len() == 0 {
        Seq::empty()
    } else {
        let init = segment_entries(seg, frags.drop_last(), prompt);
        let e = fragment_entry(seg, frags.last(), prompt);
        if e.2.len() == 0 {
            init
        } else {
            init.push(e)
        }
    }
}

/// The `(start, end, text)` triples of the whole track, segments in order.
pub open spec fn track_entries(
    segs: Seq<SpeechSegment>,
    frags: Seq<Seq<TranscriptFragment>>,
    prompt: Seq<char>,
) -> Seq<(int, int, Seq<char>)>
    decreases segs.len(),
{
    if segs.len() == 0 || frags.len() == 0 {
        Seq::empty()
    } else {
        track_entries(segs.drop_last(), frags.drop_last(), prompt) + segment_entries(
            segs.last(),
            frags.last(),
            prompt,
        )
    }
}

/// The `(start, end, text)` triples of built subtitle entries.
pub open spec fn entry_triples(track: Seq<SubtitleEntry>) -> Seq<(int, int, Seq<char>)> {
    track.map_values(|e: SubtitleEntry| (e.start_ms as int, e.end_ms as int, e.text@))
}

/// Total number of fragments over all segments.
pub open spec fn total_fragments(frags: Seq<Seq<TranscriptFragment>>) -> int
    decreases frags.len(),
{
    if frags.len() == 0 {
        0
    } else {
        total_fragments(frags.drop_last()) + frags.last().len()
    }
}

proof fn lemma_total_fragments_nonneg(frags: Seq<Seq<TranscriptFragment>>)
    ensures
        total_fragments(frags) >= 0,
    decreases frags.len(),
{
    if frags.len() > 0 {
        lemma_total_fragments_nonneg(frags.drop_last());
    }
}

/// One more segment's fragments add their count to the total.
proof fn lemma_total_fragments_take_succ(frags: Seq<Seq<TranscriptFragment>>, i: int)
    requires
        0 <= i < frags.len(),
    ensures
        total_fragments(frags.take(i + 1)) == total_fragments(frags.take(i)) + frags[i].len(),
{
    assert(frags.take(i + 1).drop_last() =~= frags.take(i));
    assert(frags.take(i + 1).last() == frags[i]);
}

/// A prefix never counts more fragments than the whole.
proof fn lemma_total_fragments_prefix(frags: Seq<Seq<TranscriptFragment>>, i: int)
    requires
        0 <= i <= frags.len(),
    ensures
        total_fragments(frags.take(i)) <= total_fragments(frags),
    decreases frags.len() - i,
{
    if i == frags.len() {
        assert(frags.take(i) =~= frags);
    } else {
        lemma_total_fragments_take_succ(frags, i);
        lemma_total_fragments_prefix(frags, i + 1);
    }
}

/// The entry of a well-formed fragment stays inside its segment's
/// millisecond span and runs forward.
proof fn lemma_fragment_entry_bounds(seg: SpeechSegment, f: TranscriptFragment, prompt: Seq<char>)
    requires
        seg_fits(seg),
        fragment_ok(f, seg),
    ensures
        sample_to_ms(seg@.start) <= fragment_entry(seg, f, prompt).0,
        fragment_entry(seg, f, prompt).0 <= fragment_entry(seg, f, prompt).1,
        fragment_entry(seg, f, prompt).1 <= sample_to_ms(seg@.end),
{
    vstd::arithmetic::div_mod::lemma_div_is_ordered(seg@.start, seg@.end, SAMPLES_PER_MS as int);
}

/// Every triple a segment contributes stays inside the segment's
/// millisecond span.
proof fn lemma_segment_entries_bounds(
    seg: SpeechSegment,
    frags: Seq<TranscriptFragment>,
    prompt: Seq<char>,
)
    requires
        seg_fits(seg),
        forall|j: int| 0 <= j < frags.len() ==> fragment_ok(#[trigger] frags[j], seg),
    ensures
        forall|k: int|
            0 <= k < segment_entries(seg, frags, prompt).len() ==> {
                let t = #[trigger] segment_entries(seg, frags, prompt)[k];
                sample_to_ms(seg@.start) <= t.0 && t.0 <= t.1 && t.1 <= sample_to_ms(seg@.end)
            },
    decreases frags.len(),
{
    if frags.len() > 0 {
        lemma_segment_entries_bounds(seg, frags.drop_last(), prompt);
        lemma_fragment_entry_bounds(seg, frags.last(), prompt);
        let entries = segment_entries(seg, frags, prompt);
        let init = segment_entries(seg, frags.drop_last(), prompt);
        let e = fragment_entry(seg, frags.last(), prompt);
        assert forall|k: int| 0 <= k < entries.len() implies {
            let t = #[trigger] entries[k];
            sample_to_ms(seg@.start) <= t.0 && t.0 <= t.1 && t.1 <= sample_to_ms(seg@.end)
        } by {
            if k < init.len() {
                assert(entries[k] == init[k]);
            } else {
                assert(entries[k] == e);
            }
        }
    }
}

/// A triple lies inside the span of one of the given segments.
pub open spec fn triple_within(segs: Seq<SpeechSegment>, t: (int, int, Seq<char>)) -> bool {
    exists|i: int|
        0 <= i < segs.len() && sample_to_ms(#[trigger] segs[i]@.start) <= t.0 && t.1
            <= sample_to_ms(segs[i]@.end)
}

/// Every triple of the track runs forward and lies inside the span of one
/// of the segments.
proof fn lemma_track_entries_bounds(
    segs: Seq<SpeechSegment>,
    frags: Seq<Seq<TranscriptFragment>>,
    prompt: Seq<char>,
)
    requires
        frags.len() == segs.len(),
        forall|i: int| 0 <= i < segs.len() ==> seg_fits(#[trigger] segs[i]),
        forall|i: int, j: int|
            0 <= i < frags.len() && 0 <= j < frags[i].len() ==> fragment_ok(
                #[trigger] frags[i][j],
                segs[i],
            ),
    ensures
        forall|k: int|
            0 <= k < track_entries(segs, frags, prompt).len() ==> {
                let t = #[trigger] track_entries(segs, frags, prompt)[k];
                t.0 <= t.1 && triple_within(segs, t)
            },
    decreases segs.len(),
{
    if segs.len() > 0 {
        let t = track_entries(segs, frags, prompt);
        let init = track_entries(segs.drop_last(), frags.drop_last(), prompt);
        let tail = segment_entries(segs.last(), frags.last(), prompt);
        lemma_track_entries_bounds(segs.drop_last(), frags.drop_last(), prompt);
        lemma_segment_entries_bounds(segs.last(), frags.last(), prompt);
        assert forall|k: int| 0 <= k < t.len() implies {
            let tr = #[trigger] t[k];
            tr.0 <= tr.1 && triple_within(segs, tr)
        } by {
            if k < init.len() {
                assert(t[k] == init[k]);
                let i = choose|i: int|
                    0 <= i < segs.drop_last().len() && sample_to_ms(
                        #[trigger] segs.drop_last()[i]@.start,
                    ) <= init[k].0 && init[k].1 <= sample_to_ms(segs.drop_last()[i]@.end);
                assert(segs.drop_last()[i] == segs[i]);
                assert(sample_to_ms(segs[i]@.start) <= t[k].0 && t[k].1 <= sample_to_ms(
                    segs[i]@.end,
                ));
            } else {
                assert(t[k] == tail[k - init.len()]);
                let i = segs.len() - 1;
                assert(sample_to_ms(segs[i]@.start) <= t[k].0 && t[k].1 <= sample_to_ms(
                    segs[i]@.end,
                ));
            }
        }
    }
}

/// Fragment start ticks never decrease: what the transcription collaborator
/// promises of the fragments it returns for one segment.
pub open spec fn fragments_sorted(frags: Seq<TranscriptFragment>) -> bool {
    forall|j1: int, j2: int|
        0 <= j1 <= j2 < frags.len() ==> #[trigger] frags[j1].start_tick
            <= #[trigger] frags[j2].start_tick
}

/// Within one segment, entries inherit the fragments' order, and none
/// starts later than the last fragment does.
proof fn lemma_segment_entries_sorted(
    seg: SpeechSegment,
    frags: Seq<TranscriptFragment>,
    prompt: Seq<char>,
)
    requires
        fragments_sorted(frags),
    ensures
        forall|k: int|
            0 <= k < segment_entries(seg, frags, prompt).len() - 1 ==> #[trigger] segment_entries(
                seg,
                frags,
                prompt,
            )[k].0 <= segment_entries(seg, frags, prompt)[k + 1].0,
        frags.len() > 0 ==> forall|k: int|
            0 <= k < segment_entries(seg, frags, prompt).len() ==> #[trigger] segment_entries(
                seg,
                frags,
                prompt,
            )[k].0 <= sample_to_ms(seg@.start) + frags.last().start_tick * MS_PER_TICK,
    decreases frags.len(),
{
    if frags.len() > 0 {
        lemma_segment_entries_sorted(seg, frags.drop_last(), prompt);
        let entries = segment_entries(seg, frags, prompt);
        let init = segment_entries(seg, frags.drop_last(), prompt);
        let e = fragment_entry(seg, frags.last(), prompt);
        assert forall|k: int| 0 <= k < entries.len() implies #[trigger] entries[k].0
            <= sample_to_ms(seg@.start) + frags.last().start_tick * MS_PER_TICK by {
            if k < init.len() {
                assert(entries[k] == init[k]);
                if frags.len() >= 2 {
                    assert(frags.drop_last().last() == frags[frags.len() - 2]);
                    assert(frags[frags.len() - 2].start_tick <= frags.last().start_tick);
                }
            } else {
                assert(entries[k] == e);
            }
        }
        assert forall|k: int| 0 <= k < entries.len() - 1 implies #[trigger] entries[k].0
            <= entries[k + 1].0 by {
            if k + 1 < init.len() {
                assert(entries[k] == init[k] && entries[k + 1] == init[k + 1]);
            } else {
                assert(entries[k + 1] == e);
                assert(entries[k] == init[k]);
                if frags.len() >= 2 {
                    assert(frags.drop_last().last() == frags[frags.len() - 2]);
                    assert(frags[frags.len() - 2].start_tick <= frags.last().start_tick);
                }
            }
        }
    }
}

/// Segments that never overlap on the sample timeline never overlap on the
/// millisecond timeline either, in any order of the pair.
pub proof fn lemma_ms_ordering_of_ordered_segments(segs: Seq<SpeechSegment>)
    requires
        crate::segment::segments_ordered(crate::segment::seg_views(segs)),
        forall|i: int| 0 <= i < segs.len() ==> seg_fits(#[trigger] segs[i]),
    ensures
        forall|i1: int, i2: int|
            0 <= i1 < i2 < segs.len() ==> sample_to_ms(#[trigger] segs[i1]@.end) <= sample_to_ms(
                #[trigger] segs[i2]@.start,
            ),
{
    assert forall|i1: int, i2: int| 0 <= i1 < i2 < segs.len() implies sample_to_ms(
        #[trigger] segs[i1]@.end,
    ) <= sample_to_ms(#[trigger] segs[i2]@.start) by {
        lemma_sample_ordering_chain(segs, i1, i2);
        vstd::arithmetic::div_mod::lemma_div_is_ordered(
            segs[i1]@.end,
            segs[i2]@.start,
            SAMPLES_PER_MS as int,
        );
    }
}

/// On the sample timeline, a segment ends no later than any later segment
/// begins.
proof fn lemma_sample_ordering_chain(segs: Seq<SpeechSegment>, i1: int, i2: int)
    requires
        crate::segment::segments_ordered(crate::segment::seg_views(segs)),
        forall|i: int| 0 <= i < segs.len() ==> seg_fits(#[trigger] segs[i]),
        0 <= i1 < i2 < segs.len(),
    ensures
        segs[i1]@.end <= segs[i2]@.start,
    decreases i2 - i1,
{
    let views = crate::segment::seg_views(segs);
    if i2 == i1 + 1 {
        assert(views[i1].end <= views[i1 + 1].start);
    } else {
        lemma_sample_ordering_chain(segs, i1, i2 - 1);
        assert(views[i2 - 1].end <= views[i2].start);
    }
}

/// The monotonic ordering guarantee of assembly: when the segments are
/// ordered and non-overlapping on the millisecond timeline and each
/// segment's fragments arrive with non-decreasing start ticks, the
/// assembled entries appear in non-decreasing start order across the whole
/// track.
pub proof fn lemma_track_entries_monotonic(
    segs: Seq<SpeechSegment>,
    frags: Seq<Seq<TranscriptFragment>>,
    prompt: Seq<char>,
)
    requires
        frags.len() == segs.len(),
        forall|i: int| 0 <= i < segs.len() ==> seg_fits(#[trigger] segs[i]),
        forall|i: int, j: int|
            0 <= i < frags.len() && 0 <= j < frags[i].len() ==> fragment_ok(
                #[trigger] frags[i][j],
                segs[i],
            ),
        forall|i: int| 0 <= i < frags.len() ==> fragments_sorted(#[trigger] frags[i]),
        forall|i1: int, i2: int|
            0 <= i1 < i2 < segs.len() ==> sample_to_ms(#[trigger] segs[i1]@.end) <= sample_to_ms(
                #[trigger] segs[i2]@.start,
            ),
    ensures
        forall|k: int|
            0 <= k < track_entries(segs, frags, prompt).len() - 1 ==> #[trigger] track_entries(
                segs,
                frags,
                prompt,
            )[k].0 <= track_entries(segs, frags, prompt)[k + 1].0,
    decreases segs.len(),
{
    if segs.len() > 0 {
        let t = track_entries(segs, frags, prompt);
        let init = track_entries(segs.drop_last(), frags.drop_last(), prompt);
        let tail = segment_entries(segs.last(), frags.last(), prompt);
        lemma_track_entries_monotonic(segs.drop_last(), frags.drop_last(), prompt);
        lemma_track_entries_bounds(segs.drop_last(), frags.drop_last(), prompt);
        lemma_segment_entries_bounds(segs.last(), frags.last(), prompt);
        lemma_segment_entries_sorted(segs.last(), frags.last(), prompt);
        assert forall|k: int| 0 <= k < t.len() - 1 implies #[trigger] t[k].0 <= t[k + 1].0 by {
            if k + 1 < init.len() {
                assert(t[k] == init[k] && t[k + 1] == init[k + 1]);
            } else if k >= init.len() {
                assert(t[k] == tail[k - init.len()] && t[k + 1] == tail[k + 1 - init.len()]);
            } else {
                assert(t[k] == init[k] && t[k + 1] == tail[0]);
                let i = choose|i: int|
                    0 <= i < segs.drop_last().len() && sample_to_ms(
                        #[trigger] segs.drop_last()[i]@.start,
                    ) <= init[k].0 && init[k].1 <= sample_to_ms(segs.drop_last()[i]@.end);
                assert(segs.drop_last()[i] == segs[i]);
                assert(sample_to_ms(segs[i]@.end) <= sample_to_ms(segs[segs.len() - 1]@.start));
                assert(sample_to_ms(segs.last()@.start) <= tail[0].0);
            }
        }
    }
}

/// An entry lies inside the millisecond span of one of the given segments.
pub open spec fn entry_within_some_segment(segs: Seq<SpeechSegment>, e: SubtitleEntry) -> bool {
    exists|i: int|
        0 <= i < segs.len() && sample_to_ms(#[trigger] segs[i]@.start) <= e.start_ms && e.end_ms
            <= sample_to_ms(segs[i]@.end)
}

/// Builds the subtitle track for the given segments from the fragments the
/// transcription collaborator returned for each.
///
/// The track's `(start, end, text)` content is exactly [`track_entries`]:
/// timestamps remapped onto the absolute timeline with ends clamped to the
/// owning segment, prompt-stripped texts, empty fragments dropped. On top of
/// that the entries are numbered 1, 2, 3, ... with no gaps or repeats, every
/// entry runs forward (`start_ms <= end_ms`), and every entry lies within
/// the millisecond span of one of the given segments.
pub fn assemble(
    segments: &Vec<SpeechSegment>,
    fragments: &Vec<Vec<TranscriptFragment>>,
    prompt: &Vec<char>,
) -> (track: Vec<SubtitleEntry>)
    requires
        fragments@.len() == segments@.len(),
        forall|i: int| 0 <= i < segments@.len() ==> seg_fits(#[trigger] segments@[i]),
        forall|i: int, j: int|
            0 <= i < fragments@.len() && 0 <= j < fragments@[i]@.len() ==> fragment_ok(
                #[trigger] fragments@[i]@[j],
                segments@[i],
            ),
        total_fragments(fragments@.map_values(|v: Vec<TranscriptFragment>| v@)) < usize::MAX,
    ensures
        entry_triples(track@) == track_entries(
            segments@,
            fragments@.map_values(|v: Vec<TranscriptFragment>| v@),
            prompt@,
        ),
        forall|k: int| 0 <= k < track@.len() ==> #[trigger] track@[k].index == k + 1,
        forall|k: int|
            0 <= k < track@.len() ==> #[trigger] track@[k].start_ms <= track@[k].end_ms,
        forall|k: int|
            0 <= k < track@.len() ==> entry_within_some_segment(segments@, #[trigger] track@[k]),
{
    let ghost fv = fragments@.map_values(|v: Vec<TranscriptFragment>| v@);
    let n = segments.len();
    let mut track: Vec<SubtitleEntry> = Vec::new();
    let mut i: usize = 0;
    proof {
        assert(segments@.take(0) =~= Seq::<SpeechSegment>::empty());
        assert(fv.take(0) =~= Seq::<Seq<TranscriptFragment>>::empty());
        assert(entry_triples(track@) =~= Seq::<(int, int, Seq<char>)>::empty());
    }
    while i < n
        invariant
            n == segments@.len(),
            fragments@.len() == segments@.len(),
            fv == fragments@.map_values(|v: Vec<TranscriptFragment>| v@),
            i <= n,
            forall|q: int| 0 <= q < segments@.len() ==> seg_fits(#[trigger] segments@[q]),
            forall|q: int, j: int|
                0 <= q < fragments@.len() && 0 <= j < fragments@[q]@.len() ==> fragment_ok(
                    #[trigger] fragments@[q]@[j],
                    segments@[q],
                ),
            total_fragments(fv) < usize::MAX,
            entry_triples(track@) == track_entries(
                segments@.take(i as int),
                fv.take(i as int),
                prompt@,
            ),
            forall|k: int| 0 <= k < track@.len() ==> #[trigger] track@[k].index == k + 1,
            track@.len() <= total_fragments(fv.take(i as int)),
        decreases n - i,
    {
        let frs = &fragments[i];
        let seg = &segments[i];
        proof {
            vstd::arithmetic::div_mod::lemma_div_is_ordered(
                seg@.start,
                seg@.end,
                SAMPLES_PER_MS as int,
            );
        }
        let seg_start = seg.start_ms();
        let seg_end = seg.end_ms();
        let diff = seg_end - seg_start;
        let m = frs.len();
        let mut j: usize = 0;
        proof {
            assert(fv[i as int] == frs@);
            assert(frs@.take(0) =~= Seq::<TranscriptFragment>::empty());
        }
        while j < m
            invariant
                n == segments@.len(),
                fragments@.len() == segments@.len(),
                fv == fragments@.map_values(|v: Vec<TranscriptFragment>| v@),
                i < n,
                j <= m,
                frs == &fragments@[i as int],
                seg == &segments@[i as int],
                m == frs@.len(),
                fv[i as int] == frs@,
                seg_start == sample_to_ms(seg@.start),
                seg_end == sample_to_ms(seg@.end),
                diff == seg_end - seg_start,
                seg_fits(segments@[i as int]),
                forall|q: int| 0 <= q < segments@.len() ==> seg_fits(#[trigger] segments@[q]),
                forall|q: int, jj: int|
                    0 <= q < fragments@.len() && 0 <= jj < fragments@[q]@.len() ==> fragment_ok(
                        #[trigger] fragments@[q]@[jj],
                        segments@[q],
                    ),
                total_fragments(fv) < usize::MAX,
                entry_triples(track@) == track_entries(
                    segments@.take(i as int),
                    fv.take(i as int),
                    prompt@,
                ) + segment_entries(segments@[i as int], frs@.take(j as int), prompt@),
                forall|k: int| 0 <= k < track@.len() ==> #[trigger] track@[k].index == k + 1,
                track@.len() <= total_fragments(fv.take(i as int)) + j,
            decreases m - j,
        {
            let f = &frs[j];
            proof {
                assert(fragment_ok(frs@[j as int], segments@[i as int]));
            }
            let stripped = strip_prompt(&f.text, prompt);
            let ghost e = fragment_entry(segments@[i as int], frs@[j as int], prompt@);
            if stripped.len() > 0 {
                proof {
                    vstd::arithmetic::div_mod::lemma_fundamental_div_mod(diff as int, 10);
                    lemma_total_fragments_take_succ(fv, i as int);
                    lemma_total_fragments_prefix(fv, i as int + 1);
                }
                let start_ms = seg_start + (f.start_tick as u32) * 10;
                let end_ms = if f.end_tick > (diff / 10) as i64 {
                    seg_end
                } else {
                    seg_start + (f.end_tick as u32) * 10
                };
                let index = track.len() + 1;
                let entry = SubtitleEntry { index, start_ms, end_ms, text: stripped };
                proof {
                    assert(e.0 == start_ms as int && e.1 == end_ms as int && e.2 == entry.text@);
                }
                let ghost pre = track@;
                track.push(entry);
                proof {
                    assert(track@.drop_last() =~= pre);
                    assert(entry_triples(track@) =~= entry_triples(pre).push(
                        (entry.start_ms as int, entry.end_ms as int, entry.text@),
                    ));
                }
            }
            proof {
                assert(frs@.take(j as int + 1).drop_last() =~= frs@.take(j as int));
                assert(frs@.take(j as int + 1).last() == frs@[j as int]);
                assert(entry_triples(track@) =~= track_entries(
                    segments@.take(i as int),
                    fv.take(i as int),
                    prompt@,
                ) + segment_entries(segments@[i as int], frs@.take(j as int + 1), prompt@));
            }
            j += 1;
        }
        proof {
            assert(frs@.take(m as int) =~= frs@);
            assert(segments@.take(i as int + 1).drop_last() =~= segments@.take(i as int));
            assert(fv.take(i as int + 1).drop_last() =~= fv.take(i as int));
            assert(segments@.take(i as int + 1).last() == segments@[i as int]);
            assert(fv.take(i as int + 1).last() == fv[i as int]);
            lemma_total_fragments_take_succ(fv, i as int);
        }
        i += 1;
    }
    proof {
        assert(segments@.take(n as int) =~= segments@);
        assert(fv.take(n as int) =~= fv);
        lemma_track_entries_bounds(segments@, fv, prompt@);
        assert forall|k: int| 0 <= k < track@.len() implies #[trigger] track@[k].start_ms
            <= track@[k].end_ms && entry_within_some_segment(segments@, track@[k]) by {
            assert(entry_triples(track@)[k] == (
                track@[k].start_ms as int,
                track@[k].end_ms as int,
                track@[k].text@,
            ));
            let t = track_entries(segments@, fv, prompt@)[k];
            let i = choose|i: int|
                0 <= i < segments@.len() && sample_to_ms(#[trigger] segments@[i]@.start) <= t.0
                    && t.1 <= sample_to_ms(segments@[i]@.end);
            assert(sample_to_ms(segments@[i]@.start) <= track@[k].start_ms as int && track@[k].end_ms
                as int <= sample_to_ms(segments@[i]@.end));
        }
    }
    track
}

} // verus!
