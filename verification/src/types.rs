//! Core data types shared across the pipeline stages.
//!
//! Confidence is a number of single precision from nothing to one, held as its bit
//! pattern. Paths are slash-separated text.

use crate::text;
use crate::text::{clone_texts, holds_text};
use vstd::prelude::*;

verus! {

/// Certainty: one.
pub const CERTAIN: u32 = 0x3f80_0000;

/// A PDF found in the source tree, before any content is read.
pub struct SourceDoc {
    pub path: String,
    /// Fingerprint of the file; the cache key for everything downstream.
    pub hash: String,
    pub bytes: u64,
}

pub struct SourceDocView {
    pub path: Seq<char>,
    pub hash: Seq<char>,
    pub bytes: u64,
}

impl View for SourceDoc {
    type V = SourceDocView;

    open spec fn view(&self) -> SourceDocView {
        SourceDocView { path: self.path@, hash: self.hash@, bytes: self.bytes }
    }
}

impl Clone for SourceDoc {
    fn clone(&self) -> (r: Self)
        ensures
            r@ == self@,
    {
        SourceDoc { path: self.path.clone(), hash: self.hash.clone(), bytes: self.bytes }
    }
}

/// Raw material pulled out of a PDF: embedded metadata plus a text probe.
pub struct Probe {
    pub file_name: String,
    pub pdf_title: Option<String>,
    pub pdf_author: Option<String>,
    pub pdf_subject: Option<String>,
    pub pdf_creator: Option<String>,
    pub page_count: Option<usize>,
    /// Text from the leading pages, whitespace-collapsed and truncated.
    pub text: String,
    /// True when the PDF yielded essentially no extractable text (image scan).
    pub scanned: bool,
}

pub struct ProbeView {
    pub file_name: Seq<char>,
    pub pdf_title: Option<Seq<char>>,
    pub pdf_author: Option<Seq<char>>,
    pub pdf_subject: Option<Seq<char>>,
    pub pdf_creator: Option<Seq<char>>,
    pub page_count: Option<usize>,
    pub text: Seq<char>,
    pub scanned: bool,
}

impl View for Probe {
    type V = ProbeView;

    open spec fn view(&self) -> ProbeView {
        ProbeView {
            file_name: self.file_name@,
            pdf_title: text::opt_text(self.pdf_title),
            pdf_author: text::opt_text(self.pdf_author),
            pdf_subject: text::opt_text(self.pdf_subject),
            pdf_creator: text::opt_text(self.pdf_creator),
            page_count: self.page_count,
            text: self.text@,
            scanned: self.scanned,
        }
    }
}

/// What the model concluded about a single document. Pass one output.
pub struct Digest {
    pub hash: String,
    pub path: String,
    /// Human-facing title, cleaned up. Drives the destination file name.
    pub title: String,
    pub game_system: String,
    pub doc_type: String,
    pub setting: String,
    pub level_range: String,
    pub publisher: String,
    pub topics: Vec<String>,
    pub summary: String,
    /// Low confidence documents are parked instead of filed.
    pub confidence: u32,
    /// Which backend produced this digest, for provenance in the plan.
    pub source: String,
}

pub struct DigestView {
    pub hash: Seq<char>,
    pub path: Seq<char>,
    pub title: Seq<char>,
    pub game_system: Seq<char>,
    pub doc_type: Seq<char>,
    pub setting: Seq<char>,
    pub level_range: Seq<char>,
    pub publisher: Seq<char>,
    pub topics: Seq<Seq<char>>,
    pub summary: Seq<char>,
    pub confidence: u32,
    pub source: Seq<char>,
}

impl View for Digest {
    type V = DigestView;

    open spec fn view(&self) -> DigestView {
        DigestView {
            hash: self.hash@,
            path: self.path@,
            title: self.title@,
            game_system: self.game_system@,
            doc_type: self.doc_type@,
            setting: self.setting@,
            level_range: self.level_range@,
            publisher: self.publisher@,
            topics: text::texts(self.topics@),
            summary: self.summary@,
            confidence: self.confidence,
            source: self.source@,
        }
    }
}

impl Clone for Digest {
    fn clone(&self) -> (r: Self)
        ensures
            r@ == self@,
    {
        Digest {
            hash: self.hash.clone(),
            path: self.path.clone(),
            title: self.title.clone(),
            game_system: self.game_system.clone(),
            doc_type: self.doc_type.clone(),
            setting: self.setting.clone(),
            level_range: self.level_range.clone(),
            publisher: self.publisher.clone(),
            topics: clone_texts(&self.topics),
            summary: self.summary.clone(),
            confidence: self.confidence,
            source: self.source.clone(),
        }
    }
}

/// The digests of a list, by what they say.
pub open spec fn digest_views(v: Seq<Digest>) -> Seq<DigestView> {
    Seq::new(v.len(), |i: int| v[i]@)
}

pub open spec fn doc_views(v: Seq<SourceDoc>) -> Seq<SourceDocView> {
    Seq::new(v.len(), |i: int| v[i]@)
}

/// The folder tree the model designs from the whole corpus. Pass two, part one.
pub struct Taxonomy {
    /// Leaf folder paths, e.g. "D&D 5e/Adventures/Tier 1". Slash separated.
    pub leaves: Vec<String>,
    /// Optional one-line rationale per leaf, shown in the plan review.
    pub notes: Vec<String>,
}

impl Taxonomy {
    /// The leaf folders, in order.
    pub open spec fn leaf_list(self) -> Seq<Seq<char>> {
        text::texts(self.leaves@)
    }

    pub fn contains(&self, leaf: &str) -> (r: bool)
        ensures
            r == self.leaf_list().contains(leaf@),
    {
        holds_text(self.leaves.as_slice(), leaf)
    }
}

/// One filing decision.
pub struct Assignment {
    pub hash: String,
    pub source: String,
    /// Destination relative to the library root, including file name.
    pub dest: String,
    pub leaf: String,
    pub title: String,
    pub confidence: u32,
    pub reason: String,
    /// What was concluded about the document, for stamping it later.
    pub digest: Option<Digest>,
}

pub struct AssignmentView {
    pub hash: Seq<char>,
    pub source: Seq<char>,
    pub dest: Seq<char>,
    pub leaf: Seq<char>,
    pub title: Seq<char>,
    pub confidence: u32,
    pub reason: Seq<char>,
    pub digest: Option<DigestView>,
}

pub open spec fn opt_digest(d: Option<Digest>) -> Option<DigestView> {
    match d {
        Some(x) => Some(x@),
        None => None,
    }
}

impl View for Assignment {
    type V = AssignmentView;

    open spec fn view(&self) -> AssignmentView {
        AssignmentView {
            hash: self.hash@,
            source: self.source@,
            dest: self.dest@,
            leaf: self.leaf@,
            title: self.title@,
            confidence: self.confidence,
            reason: self.reason@,
            digest: opt_digest(self.digest),
        }
    }
}

pub open spec fn assignment_views(v: Seq<Assignment>) -> Seq<AssignmentView> {
    Seq::new(v.len(), |i: int| v[i]@)
}

/// A moment in universal time: seconds since 1970 and the nanoseconds past it.
#[derive(Clone, Copy)]
pub struct Timestamp {
    pub seconds: i64,
    pub nanos: u32,
}

/// The full reviewable plan written to disk before anything moves.
pub struct Plan {
    pub created: Timestamp,
    pub source_root: String,
    pub library_root: String,
    pub mode: LinkMode,
    pub taxonomy: Taxonomy,
    pub assignments: Vec<Assignment>,
    /// Documents the pipeline refused to file, with the reason why.
    pub unfiled: Vec<Unfiled>,
    /// Groups of files that are one work; only the kept one is filed.
    pub duplicates: Vec<Duplicate>,
}

pub struct Unfiled {
    pub path: String,
    pub reason: String,
}

pub struct Duplicate {
    pub hash: String,
    pub kept: String,
    pub others: Vec<String>,
}

pub struct DuplicateView {
    pub hash: Seq<char>,
    pub kept: Seq<char>,
    pub others: Seq<Seq<char>>,
}

impl View for Duplicate {
    type V = DuplicateView;

    open spec fn view(&self) -> DuplicateView {
        DuplicateView { hash: self.hash@, kept: self.kept@, others: text::texts(self.others@) }
    }
}

pub open spec fn duplicate_views(v: Seq<Duplicate>) -> Seq<DuplicateView> {
    Seq::new(v.len(), |i: int| v[i]@)
}

/// How a filed document gets into the library.
#[derive(Debug, Clone, Copy, PartialEq, Eq, Structural)]
pub enum LinkMode {
    /// Hard link. No extra disk, originals untouched. Same filesystem only.
    Hardlink,
    /// Symbolic link. Works across filesystems, originals untouched.
    Symlink,
    /// Full copy. Safest, doubles disk usage.
    Copy,
    /// Move the original. Destructive to the source tree.
    Move,
}

/// Written on every apply so a run can be reversed exactly.
pub struct UndoManifest {
    pub created: Timestamp,
    pub mode: LinkMode,
    pub library_root: String,
    pub actions: Vec<UndoAction>,
}

pub struct UndoAction {
    /// File that was created in the library.
    pub created: String,
    /// Where it came from. Only meaningful for `Move`.
    pub original: String,
}

} // verus!
