//! Bridge from the finished subtitle track to the SRT serialization crate.
//!
//! The subtitle file format itself is the `srtlib` crate's business: it
//! renders each record as an index line, a timestamp line and the text,
//! records separated by blank lines, and writes the file. This module builds
//! the crate's collection from a verified track, record for record; writing
//! the collection to disk is left to the caller at the process edge.

use vstd::prelude::*;

use crate::assemble::SubtitleEntry;

verus! {

/// Largest millisecond value the `HH:MM:SS,mmm` timestamp of the SRT format
/// renders faithfully: 255:59:59,999. Beyond it the hour field of
/// `srtlib::Timestamp` wraps.
pub const MAX_TIMESTAMP_MS: u32 = 921599999;

#[verifier::external_type_specification]
#[verifier::external_body]
pub struct ExSubtitles(srtlib::Subtitles);

/// The records an `srtlib::Subtitles` collection holds, in order: sequence
/// number, start and end in milliseconds, text.
pub uninterp spec fn subs_seq(s: srtlib::Subtitles) -> Seq<(usize, u32, u32, Seq<char>)>;

/// Relies on srtlib::Subtitles::new: the fresh collection holds no records.
#[verifier::external_body]
pub fn subtitles_new() -> (s: srtlib::Subtitles)
    ensures
        subs_seq(s) == Seq::<(usize, u32, u32, Seq<char>)>::empty(),
{
    srtlib::Subtitles::new()
}

/// Relies on srtlib::Subtitles::push, srtlib::Subtitle::new and
/// srtlib::Timestamp::from_milliseconds: push appends one subtitle at the
/// end, Subtitle::new stores its four fields unchanged, and
/// from_milliseconds stores the given millisecond value exactly.
#[verifier::external_body]
pub fn subtitles_push(
    subs: &mut srtlib::Subtitles,
    num: usize,
    start_ms: u32,
    end_ms: u32,
    text: &Vec<char>,
)
    requires
        start_ms <= MAX_TIMESTAMP_MS,
        end_ms <= MAX_TIMESTAMP_MS,
    ensures
        subs_seq(*final(subs)) == subs_seq(*old(subs)).push((num, start_ms, end_ms, text@)),
{
    let rendered: String = text.iter().collect();
    subs.push(
        srtlib::Subtitle::new(
            num,
            srtlib::Timestamp::from_milliseconds(start_ms),
            srtlib::Timestamp::from_milliseconds(end_ms),
            rendered,
        ),
    );
}

/// The record one subtitle entry contributes to the SRT collection.
pub open spec fn entry_record(e: SubtitleEntry) -> (usize, u32, u32, Seq<char>) {
    (e.index, e.start_ms, e.end_ms, e.text@)
}

/// Builds the SRT crate's collection from a finished track, record for
/// record and in order. The caller writes the collection to the output
/// file.
pub fn build_subtitles(track: &Vec<SubtitleEntry>) -> (subs: srtlib::Subtitles)
    requires
        forall|k: int|
            0 <= k < track@.len() ==> #[trigger] track@[k].start_ms <= MAX_TIMESTAMP_MS
                && track@[k].end_ms <= MAX_TIMESTAMP_MS,
    ensures
        subs_seq(subs) == track@.map_values(|e: SubtitleEntry| entry_record(e)),
{
    let mut subs = subtitles_new();
    let n = track.len();
    let mut i: usize = 0;
    proof {
        assert(Seq::<(usize, u32, u32, Seq<char>)>::empty() =~= track@.take(0).map_values(
            |e: SubtitleEntry| entry_record(e),
        ));
    }
    while i < n
        invariant
            n == track@.len(),
            i <= n,
            forall|k: int|
                0 <= k < track@.len() ==> #[trigger] track@[k].start_ms <= MAX_TIMESTAMP_MS
                    && track@[k].end_ms <= MAX_TIMESTAMP_MS,
            subs_seq(subs) == track@.take(i as int).map_values(|e: SubtitleEntry| entry_record(e)),
        decreases n - i,
    {
        let e = &track[i];
        subtitles_push(&mut subs, e.index, e.start_ms, e.end_ms, &e.text);
        proof {
            assert(track@.take(i as int).map_values(|e: SubtitleEntry| entry_record(e)).push(
                entry_record(track@[i as int]),
            ) =~= track@.take(i as int + 1).map_values(|e: SubtitleEntry| entry_record(e)));
        }
        i += 1;
    }
    proof {
        assert(track@.take(n as int) =~= track@);
    }
    subs
}

} // verus!
