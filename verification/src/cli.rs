//! Command-line choices that the library acts on.
use vstd::prelude::*;
use crate::dedupe::MediaKind;

verus! {

/// The media types that a run can be restricted to.
#[derive(Clone, Copy, Debug, PartialEq, Eq, Structural)]
pub enum MediaFilter {
    Images,
    Videos,
    Audio,
}

/// The media kind that a filter restricts a run to.
pub open spec fn filter_kind(filter: MediaFilter) -> MediaKind {
    match filter {
        MediaFilter::Images => MediaKind::Image,
        MediaFilter::Videos => MediaKind::Video,
        MediaFilter::Audio => MediaKind::Audio,
    }
}

/// The media kind that a run is restricted to, if any.
pub fn only_kind(filter: Option<MediaFilter>) -> (kind: Option<MediaKind>)
    ensures
        kind == (match filter {
            None => None,
            Some(f) => Some(filter_kind(f)),
        }),
{
    match filter {
        None => None,
        Some(MediaFilter::Images) => Some(MediaKind::Image),
        Some(MediaFilter::Videos) => Some(MediaKind::Video),
        Some(MediaFilter::Audio) => Some(MediaKind::Audio),
    }
}

} // verus!
