//! Plain data shared between the engine, the search index and the library.

use vstd::prelude::*;

verus! {

/// Identifier of an open document.
pub type DocId = u32;

/// Lower value = more urgent: the render priority ladder.
#[derive(Clone, Copy, PartialEq, Eq, PartialOrd, Ord, Debug, Structural)]
pub enum Priority {
    VisiblePage,
    VisibleTile,
    HoverPreview,
    AdjacentPage,
    VisibleThumb,
    NearThumb,
    TextExtract,
    Prefetch,
    Idle,
}

/// The rung of the priority ladder that the wire value `v` names; anything
/// past the last rung is the idle rung.
pub open spec fn priority_of(v: u8) -> Priority {
    if v == 0 {
        Priority::VisiblePage
    } else if v == 1 {
        Priority::VisibleTile
    } else if v == 2 {
        Priority::HoverPreview
    } else if v == 3 {
        Priority::AdjacentPage
    } else if v == 4 {
        Priority::VisibleThumb
    } else if v == 5 {
        Priority::NearThumb
    } else if v == 6 {
        Priority::TextExtract
    } else if v == 7 {
        Priority::Prefetch
    } else {
        Priority::Idle
    }
}

/// The wire value of a rung: its position on the ladder.
pub open spec fn priority_rank(p: Priority) -> u8 {
    match p {
        Priority::VisiblePage => 0,
        Priority::VisibleTile => 1,
        Priority::HoverPreview => 2,
        Priority::AdjacentPage => 3,
        Priority::VisibleThumb => 4,
        Priority::NearThumb => 5,
        Priority::TextExtract => 6,
        Priority::Prefetch => 7,
        Priority::Idle => 8,
    }
}

impl Priority {
    pub fn from_u8(v: u8) -> (p: Priority)
        ensures
            p == priority_of(v),
            v <= 8 ==> priority_rank(p) == v,
            v > 8 ==> p == Priority::Idle,
    {
        match v {
            0 => Priority::VisiblePage,
            1 => Priority::VisibleTile,
            2 => Priority::HoverPreview,
            3 => Priority::AdjacentPage,
            4 => Priority::VisibleThumb,
            5 => Priority::NearThumb,
            6 => Priority::TextExtract,
            7 => Priority::Prefetch,
            _ => Priority::Idle,
        }
    }
}

/// A rectangle of device pixels.
#[derive(Clone, Copy, PartialEq, Eq, PartialOrd, Ord, Hash, Debug, Structural)]
pub struct TileRect {
    pub x: u32,
    pub y: u32,
    pub w: u32,
    pub h: u32,
}

#[derive(Clone, Copy, PartialEq, Eq, PartialOrd, Ord, Hash, Debug, Structural)]
pub enum RenderKind {
    Page,
    Thumb,
    Tile,
    Preview,
}

/// Cache key for one rendered artifact.
#[derive(Clone, Copy, PartialEq, Eq, PartialOrd, Ord, Hash, Debug, Structural)]
pub struct RenderKey {
    pub doc: DocId,
    pub src: u32,
    /// extra rotation applied on top of the page's own /Rotate (0/90/180/270)
    pub rot: u16,
    pub scale_milli: u32,
    pub kind: RenderKind,
    pub tile: Option<TileRect>,
}

/// Identity of a queued job: which document, and the generation it was
/// submitted under.
#[derive(Clone, Copy, Debug)]
pub struct JobMeta {
    pub doc: DocId,
    pub gen: u64,
}

/// An encoded page image.
pub struct RenderOutput {
    pub png: Vec<u8>,
}

/// A page's raw character stream and its length in characters.
pub struct ExtractedSearchText {
    pub raw: String,
    pub char_count: u32,
}

/// Size and modification time of a file on disk.
#[derive(Clone, Copy, Debug)]
pub struct FileMetaDto {
    pub size_bytes: u64,
    pub modified_ms: i64,
}

/// A citation identifier: a DOI or an arXiv id, normalized.
#[derive(Clone, Debug, PartialEq, Eq, Hash)]
pub enum CitationIdDto {
    Doi(String),
    ArXiv(String),
}

#[derive(Clone, Debug)]
pub struct PreviewSpecDto {
    pub doc_id: DocId,
    pub src: u32,
    pub tile: TileRect,
    pub scale_milli: u32,
    pub text: String,
}

#[derive(Clone, Debug)]
pub struct ResolvedCitationDto {
    pub doc_id: DocId,
    pub title: Option<String>,
    pub page_count: u32,
    pub file_name: String,
    /// Canonical, root-contained path used by the normal guarded open flow.
    pub path: String,
    pub preview: PreviewSpecDto,
}

#[derive(Clone, Debug, Default)]
pub struct LibraryStatusDto {
    /// Every folder in the library.
    pub roots: Vec<String>,
    pub indexed: u32,
    pub total: u32,
    pub scanning: bool,
    /// Documents whose full text has been extracted for search.
    pub text_indexed: u32,
    pub text_total: u32,
}

/// One match: a range of the page's raw character stream and the text
/// around it.
#[derive(Clone, Debug)]
pub struct MatchDto {
    pub start: u32,
    pub len: u32,
    pub snippet: String,
}

#[derive(Clone, Debug)]
pub struct PageMatchesDto {
    pub src: u32,
    pub matches: Vec<MatchDto>,
}

/// One document that matched a library-wide search.
#[derive(Clone, Debug)]
pub struct LibraryHitDto {
    pub path: String,
    pub name: String,
    pub title: Option<String>,
    pub total_matches: u32,
    pub pages: Vec<PageMatchesDto>,
}

#[derive(Clone, Debug)]
pub struct LibrarySearchDto {
    pub documents: Vec<LibraryHitDto>,
    pub truncated: bool,
}

#[derive(Clone, Debug)]
pub struct SearchQueryDto {
    pub pages: Vec<PageMatchesDto>,
    /// True when the global/per-page safety bound omitted further matches.
    pub truncated: bool,
    pub limit: u32,
}

#[derive(Clone, Debug)]
pub struct SearchStatusDto {
    pub indexed: u32,
    pub total: u32,
    pub truncated: bool,
    pub chars_indexed: u64,
}

#[derive(Clone, Debug)]
pub struct FormFieldDto {
    pub name: String,
    pub kind: String,
    pub value: String,
    pub page: u32,
    pub read_only: bool,
}

#[derive(Clone, Debug)]
pub struct SaveResultDto {
    pub path: String,
    pub bytes: u64,
    pub duration_ms: u64,
}

#[derive(Clone, Debug, Default)]
pub struct EngineMetricsDto {
    pub rendered: u64,
    pub skipped_stale: u64,
    pub cache_hits: u64,
    pub cache_lookups: u64,
    pub page_cache_bytes: u64,
    pub page_cache_budget: u64,
    pub thumb_cache_bytes: u64,
    pub thumb_cache_budget: u64,
    pub preview_cache_bytes: u64,
    pub preview_cache_budget: u64,
    pub text_bytes: u64,
    pub text_budget: u64,
    pub pages_indexed: u64,
    pub queue_depth: u64,
}

/// Byte budgets of every cache the engine keeps.
pub struct CacheBudgets {
    pub pages: u64,
    pub thumbs: u64,
    pub previews: u64,
    pub search: u64,
    pub text_layouts: u64,
    pub links: u64,
}

pub const MIB: u64 = 1048576;

impl CacheBudgets {
    pub fn normal() -> (b: Self)
        ensures
            b.pages == 256 * MIB,
            b.thumbs == 32 * MIB,
            b.previews == 24 * MIB,
            b.search == 64 * MIB,
            b.text_layouts == 32 * MIB,
            b.links == 8 * MIB,
    {
        CacheBudgets {
            pages: 256 * MIB,
            thumbs: 32 * MIB,
            previews: 24 * MIB,
            search: 64 * MIB,
            text_layouts: 32 * MIB,
            links: 8 * MIB,
        }
    }

    pub fn low_memory() -> (b: Self)
        ensures
            b.pages == 96 * MIB,
            b.thumbs == 16 * MIB,
            b.previews == 8 * MIB,
            b.search == 32 * MIB,
            b.text_layouts == 16 * MIB,
            b.links == 4 * MIB,
    {
        CacheBudgets {
            pages: 96 * MIB,
            thumbs: 16 * MIB,
            previews: 8 * MIB,
            search: 32 * MIB,
            text_layouts: 16 * MIB,
            links: 4 * MIB,
        }
    }
}

/// Every budget of the low-memory profile is strictly below the normal one.
pub proof fn lemma_low_memory_is_smaller()
    ensures
        96 * MIB < 256 * MIB && 16 * MIB < 32 * MIB && 8 * MIB < 24 * MIB && 32 * MIB < 64 * MIB
            && 16 * MIB < 32 * MIB && 4 * MIB < 8 * MIB,
{
}

} // verus!
