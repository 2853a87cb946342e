//! The preview start of a song's audio cue file.
//!
//! The preview is set by the TrackEvent table: the start, in milliseconds and
//! big-endian, sits at a fixed distance after the table's name, 0x17 bytes when the
//! byte before the name is 0x0A and 0x21 otherwise.

use memmem::Searcher;
use vstd::prelude::*;

verus! {

/// `TrackEvent` followed by a zero byte.
pub open spec fn track_event_tag() -> Seq<u8> {
    seq![84u8, 114u8, 97u8, 99u8, 107u8, 69u8, 118u8, 101u8, 110u8, 116u8, 0u8]
}

/// `needle` occurs in `h` at `i`.
pub open spec fn occurs_at(h: Seq<u8>, needle: Seq<u8>, i: int) -> bool {
    0 <= i && i + needle.len() <= h.len() && h.subrange(i, i + needle.len()) == needle
}

/// Relies on memmem's `TwoWaySearcher::search_in`: the start of a match of the
/// needle in the haystack, if there is one.
#[verifier::external_body]
fn search(needle: &[u8], haystack: &[u8]) -> (r: Option<usize>)
    ensures
        r matches Some(i) ==> occurs_at(haystack@, needle@, i as int),
        r is None ==> forall|i: int| !occurs_at(haystack@, needle@, i),
{
    memmem::TwoWaySearcher::new(needle).search_in(haystack)
}

/// Distance from the table's name to the preview start.
pub open spec fn preview_offset(before: u8) -> int {
    if before == 0x0A {
        0x17
    } else {
        0x21
    }
}

/// The content with the three low bytes of `ms`, big-endian, written at the preview
/// place of a table named at `idx`; unchanged where that place is not in the content.
pub open spec fn patched_at(c: Seq<u8>, idx: int, ms: u32) -> Seq<u8> {
    if idx >= 1 && idx < c.len() && idx + preview_offset(c[idx - 1]) + 3 <= c.len() {
        let p = idx + preview_offset(c[idx - 1]);
        c.update(p, ((ms / 65536) % 256) as u8).update(p + 1, ((ms / 256) % 256) as u8).update(
            p + 2,
            (ms % 256) as u8,
        )
    } else {
        c
    }
}

/// Writes the preview start for the table named at `idx`.
pub fn patch_preview_at(content: Vec<u8>, idx: usize, prev_start_ms: u32) -> (r: Vec<u8>)
    ensures
        r@ == patched_at(content@, idx as int, prev_start_ms),
{
    let mut c = content;
    let n = c.len();
    if idx >= 1 && idx < n {
        let off: usize = if c[idx - 1] == 0x0A {
            0x17
        } else {
            0x21
        };
        if off + 3 <= n && idx <= n - 3 - off {
            let p = idx + off;
            c.set(p, ((prev_start_ms / 65536) % 256) as u8);
            c.set(p + 1, ((prev_start_ms / 256) % 256) as u8);
            c.set(p + 2, (prev_start_ms % 256) as u8);
        }
    }
    c
}

/// Writes the preview start after the TrackEvent table's name, where the content
/// holds it; else returns the content as it is.
pub fn patch_acb_preview(content: Vec<u8>, prev_start_ms: u32) -> (r: Vec<u8>)
    ensures
        (forall|i: int| !occurs_at(content@, track_event_tag(), i)) ==> r@ == content@,
        (exists|i: int| occurs_at(content@, track_event_tag(), i)) ==> exists|i: int|
            occurs_at(content@, track_event_tag(), i) && r@ == patched_at(
                content@,
                i,
                prev_start_ms,
            ),
{
    let tag: [u8; 11] = [84, 114, 97, 99, 107, 69, 118, 101, 110, 116, 0];
    assert(tag@ == track_event_tag());
    match search(tag.as_slice(), content.as_slice()) {
        Some(idx) => patch_preview_at(content, idx, prev_start_ms),
        None => content,
    }
}

} // verus!
