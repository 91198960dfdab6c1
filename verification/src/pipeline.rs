//! Stage orchestration: what is found and read in, reviewable plan out. Nothing
//! here writes to the library, and nothing is moved before the plan is read.

use crate::brain;
use crate::brain::{Brain, DigestFields, DigestFieldsView, Filing, FilingView};
use crate::cache;
use crate::cache::Cache;
use crate::config::{Config, SystemsConfig};
use crate::float;
use crate::float::{divide, from_whole, keep_within_one, reaches};
use crate::naming;
use crate::naming::{is_unknown, sanitize_folder, try_file_name, try_unique};
use crate::order;
use crate::order::{insert_ascending, sort_by_keys};
use crate::paths;
use crate::paths::{join_paths, path_key_of, stem_of};
use crate::scan;
use crate::systems;
use crate::systems::canonical;
use crate::text;
use crate::text::{alphanumeric, chars_of, collapse, copy_range, lowercase, own, quoted, same, text_of, white};
use crate::types;
use crate::types::{Assignment, AssignmentView, CERTAIN, Digest, DigestView, Duplicate, DuplicateView, LinkMode, Plan, Probe, ProbeView, SourceDoc, SourceDocView, Taxonomy, Timestamp, Unfiled};
use vstd::prelude::*;
use vstd::string::StringExecFns;

verus! {

/// Where documents go when nothing in the taxonomy fits well enough.
pub const UNSORTED: &'static str = "_Unsorted";

/// Describes a page image when a PDF yields no text of its own.
///
/// What they see is their own affair. They may say with a relation how an image,
/// a document, their state before and their state after go with what was seen,
/// so a contract can tell what an answer belongs to.
pub trait Eyes: Sized {
    /// Whether they go by this name.
    open spec fn are_called(&self, name: Seq<char>) -> bool {
        true
    }

    /// Whether they may see this in an image of a document.
    open spec fn sees(
        before: Self,
        image: Seq<char>,
        probe: ProbeView,
        after: Self,
        r: Result<DigestFieldsView, Seq<char>>,
    ) -> bool {
        true
    }

    fn name(&self) -> (r: String)
        ensures
            self.are_called(r@),
    ;

    fn describe(&mut self, image: &str, probe: &Probe) -> (r: Result<DigestFields, String>)
        ensures
            Self::sees(*old(self), image@, probe@, *final(self), brain::fields_reply(r)),
    ;
}

pub struct Options {
    pub mode: LinkMode,
    /// Ignore cached digests and re-read every document.
    pub rescan: bool,
    /// Re-read documents whose cached digest scored below this confidence.
    pub redigest_below: Option<u32>,
    /// Re-read documents the backend could not name.
    pub redigest_unknown: bool,
    /// Stop after this many documents. For trying the pipeline out cheaply.
    pub limit: Option<usize>,
}

// ---------------------------------------------------------------------------
// Reading
// ---------------------------------------------------------------------------

/// The documents that are read: all, or as many as a limit allows.
pub open spec fn within_limit(docs: Seq<SourceDocView>, limit: Option<usize>) -> Seq<SourceDocView> {
    match limit {
        Some(n) => if docs.len() <= n {
            docs
        } else {
            docs.take(n as int)
        },
        None => docs,
    }
}

pub fn limit_docs(docs: Vec<SourceDoc>, limit: Option<usize>) -> (r: Vec<SourceDoc>)
    ensures
        types::doc_views(r@) == within_limit(types::doc_views(docs@), limit),
        limit matches Some(n) ==> r@.len() <= n,
        limit is None ==> r@ == docs@,
        limit matches Some(n) ==> (docs@.len() <= n ==> r@ == docs@) && (docs@.len() > n ==> r@
            == docs@.take(n as int)),
{
    let mut docs = docs;
    let ghost all = docs@;
    if let Some(n) = limit {
        if docs.len() > n {
            docs.truncate(n);
            assert(types::doc_views(docs@) =~= types::doc_views(all).take(n as int));
        }
    }
    docs
}

/// What the cache still holds once the entries to be read again are gone.
pub open spec fn still_cached(m: Map<Seq<char>, DigestView>, opts: Options) -> Map<
    Seq<char>,
    DigestView,
> {
    if opts.rescan {
        Map::empty()
    } else {
        let sure = match opts.redigest_below {
            Some(confidence) => cache::sure_entries(m, confidence),
            None => m,
        };
        if opts.redigest_unknown {
            cache::named_entries(sure)
        } else {
            sure
        }
    }
}

/// Drop the cache entries that the options ask to be read again. Returns whether
/// what is kept on disk is out of date: every entry was to go, or some were
/// dropped.
pub fn refresh_cache(cache: &mut Cache, opts: &Options) -> (r: bool)
    ensures
        final(cache)@ == still_cached(old(cache)@, *opts),
        forall|h: Seq<char>| #[trigger]
            final(cache)@.contains_key(h) <==> {
                &&& !opts.rescan
                &&& old(cache)@.contains_key(h)
                &&& opts.redigest_below matches Some(least) ==> float::at_least(
                    old(cache)@[h].confidence,
                    least,
                )
                &&& opts.redigest_unknown ==> !naming::says_nothing(old(cache)@[h].title)
            },
        forall|h: Seq<char>| #[trigger]
            final(cache)@.contains_key(h) ==> final(cache)@[h] == old(cache)@[h],
        r == (opts.rescan || final(cache)@.dom().len() < old(cache)@.dom().len()),
{
    if opts.rescan {
        cache.clear();
        return true;
    }
    let mut dropped = false;
    if let Some(confidence) = opts.redigest_below {
        if cache.drop_below(confidence) > 0 {
            dropped = true;
        }
    }
    if opts.redigest_unknown {
        if cache.drop_unnamed() > 0 {
            dropped = true;
        }
    }
    dropped
}

/// A cached digest, with the path at which the file lives now.
pub open spec fn relocated(d: DigestView, path: Seq<char>) -> DigestView {
    DigestView { path, ..d }
}

/// The digests of those documents that the cache knows.
pub open spec fn cached_digests(
    m: Map<Seq<char>, DigestView>,
    docs: Seq<SourceDocView>,
) -> Seq<DigestView>
    decreases docs.len(),
{
    if docs.len() == 0 {
        seq![]
    } else {
        let before = cached_digests(m, docs.drop_last());
        let d = docs.last();
        if m.contains_key(d.hash) {
            before.push(relocated(m[d.hash], d.path))
        } else {
            before
        }
    }
}

/// The documents that the cache does not know.
pub open spec fn pending_docs(
    m: Map<Seq<char>, DigestView>,
    docs: Seq<SourceDocView>,
) -> Seq<SourceDocView>
    decreases docs.len(),
{
    if docs.len() == 0 {
        seq![]
    } else {
        let before = pending_docs(m, docs.drop_last());
        if m.contains_key(docs.last().hash) {
            before
        } else {
            before.push(docs.last())
        }
    }
}

/// A document that the cache knows by its hash has the description that the cache
/// holds, at the path where it lives now, however it was called before. One that
/// the cache does not know is to be read.
pub proof fn descriptions_follow_their_files(
    m: Map<Seq<char>, DigestView>,
    docs: Seq<SourceDocView>,
    i: int,
)
    requires
        0 <= i < docs.len(),
    ensures
        m.contains_key(docs[i].hash) ==> cached_digests(m, docs).contains(
            (DigestView { path: docs[i].path, ..m[docs[i].hash] }),
        ),
        !m.contains_key(docs[i].hash) ==> pending_docs(m, docs).contains(docs[i]),
    decreases docs.len(),
{
    let front = docs.drop_last();
    let d = docs.last();
    if i < front.len() {
        descriptions_follow_their_files(m, front, i);
        lemma_push_contains(
            cached_digests(m, front),
            relocated(m[d.hash], d.path),
            (DigestView { path: docs[i].path, ..m[docs[i].hash] }),
        );
        lemma_push_contains(pending_docs(m, front), d, docs[i]);
    } else {
        lemma_push_contains(
            cached_digests(m, front),
            relocated(m[d.hash], d.path),
            relocated(m[d.hash], d.path),
        );
        lemma_push_contains(pending_docs(m, front), d, d);
    }
}

/// Part the documents into those whose digest can be reused, described as the
/// cache has them but where they live now, and those to be read.
pub fn split_cached(cache: &Cache, docs: &Vec<SourceDoc>) -> (r: (Vec<Digest>, Vec<SourceDoc>))
    ensures
        types::digest_views(r.0@) == cached_digests(cache@, types::doc_views(docs@)),
        types::doc_views(r.1@) == pending_docs(cache@, types::doc_views(docs@)),
        r.0@.len() + r.1@.len() == docs@.len(),
        forall|i: int|
            0 <= i < docs@.len() ==> if cache@.contains_key((#[trigger] docs@[i]).hash@) {
                types::digest_views(r.0@).contains(
                    (DigestView { path: docs@[i].path@, ..cache@[docs@[i].hash@] }),
                )
            } else {
                types::doc_views(r.1@).contains(docs@[i]@)
            },
{
    let ghost all = types::doc_views(docs@);
    proof {
        assert forall|i: int| 0 <= i < docs@.len() implies if cache@.contains_key(
            (#[trigger] docs@[i]).hash@,
        ) {
            cached_digests(cache@, all).contains(
                (DigestView { path: docs@[i].path@, ..cache@[docs@[i].hash@] }),
            )
        } else {
            pending_docs(cache@, all).contains(docs@[i]@)
        } by {
            assert(all[i] == docs@[i]@);
            descriptions_follow_their_files(cache@, all, i);
        }
    }
    let mut digests: Vec<Digest> = Vec::new();
    let mut pending: Vec<SourceDoc> = Vec::new();
    let mut i: usize = 0;
    assert(all.take(0) =~= Seq::<SourceDocView>::empty());
    assert(types::digest_views(digests@) =~= Seq::<DigestView>::empty());
    assert(types::doc_views(pending@) =~= Seq::<SourceDocView>::empty());
    while i < docs.len()
        invariant
            all == types::doc_views(docs@),
            i <= docs@.len(),
            types::digest_views(digests@) == cached_digests(cache@, all.take(i as int)),
            types::doc_views(pending@) == pending_docs(cache@, all.take(i as int)),
            digests@.len() + pending@.len() == i,
        decreases docs@.len() - i,
    {
        let doc = &docs[i];
        assert(all.take(i + 1).drop_last() =~= all.take(i as int));
        assert(all.take(i + 1).last() == doc@);
        match cache.get(doc.hash.as_str()) {
            Some(known) => {
                let mut digest = known.clone();
                digest.path = doc.path.clone();
                let ghost before = digests@;
                digests.push(digest);
                assert(types::digest_views(digests@) =~= types::digest_views(before).push(
                    relocated(known@, doc.path@),
                ));
            },
            None => {
                let ghost before = pending@;
                pending.push(doc.clone());
                assert(types::doc_views(pending@) =~= types::doc_views(before).push(doc@));
            },
        }
        i = i + 1;
    }
    assert(all.take(i as int) =~= all);
    (digests, pending)
}

/// The source file's own name, unchanged, for when nothing better is known.
pub open spec fn own_name(path: Seq<char>) -> Seq<char> {
    match paths::file_stem(path) {
        Some(stem) => if stem.len() == 0 {
            "Untitled"@
        } else {
            stem
        },
        None => "Untitled"@,
    }
}

/// The source file's own name, unchanged, for when nothing better is known.
///
/// Deliberately not tidied: if no backend could read a title, the name the file
/// arrived with is the only real information left, and altering it would only
/// make the document harder to trace back to its source.
pub fn fallback_title(path: &str) -> (r: String)
    ensures
        r@ == own_name(path@),
{
    match stem_of(path) {
        Some(stem) => if stem.as_str().is_empty() {
            own("Untitled")
        } else {
            stem
        },
        None => own("Untitled"),
    }
}

/// The digest of a document from what a backend extracted. A backend that could
/// not read a title must not name the file "Unknown.pdf" — the original name,
/// however ugly, carries more.
pub open spec fn digest_of(
    doc: SourceDocView,
    fields: DigestFieldsView,
    source: Seq<char>,
) -> DigestView {
    DigestView {
        hash: doc.hash,
        path: doc.path,
        title: if naming::says_nothing(fields.title) {
            own_name(doc.path)
        } else {
            fields.title
        },
        game_system: fields.game_system,
        doc_type: fields.doc_type,
        setting: fields.setting,
        level_range: fields.level_range,
        publisher: fields.publisher,
        topics: fields.topics,
        summary: fields.summary,
        confidence: float::kept_within_one(fields.confidence),
        source,
    }
}

pub fn to_digest(doc: &SourceDoc, fields: DigestFields, source: String) -> (r: Digest)
    ensures
        r@ == digest_of(doc@, fields@, source@),
        r.hash@ == doc.hash@ && r.path@ == doc.path@ && r.source@ == source@,
        !naming::says_nothing(fields.title@) ==> r.title@ == fields.title@,
        naming::says_nothing(fields.title@) ==> match paths::file_stem(doc.path@) {
            Some(stem) => stem.len() > 0 ==> r.title@ == stem,
            None => r.title@ == "Untitled"@,
        },
        r.game_system@ == fields.game_system@ && r.doc_type@ == fields.doc_type@,
        r.setting@ == fields.setting@ && r.level_range@ == fields.level_range@,
        r.publisher@ == fields.publisher@ && r.summary@ == fields.summary@,
        r.topics@ == fields.topics@,
        float::at_least(fields.confidence, 0) && float::at_least(CERTAIN, fields.confidence)
            ==> r.confidence == fields.confidence,
        !float::below(r.confidence, 0) && !float::below(CERTAIN, r.confidence),
{
    let title = if is_unknown(fields.title.as_str()) {
        fallback_title(doc.path.as_str())
    } else {
        fields.title
    };
    Digest {
        hash: doc.hash.clone(),
        path: doc.path.clone(),
        title,
        game_system: fields.game_system,
        doc_type: fields.doc_type,
        setting: fields.setting,
        level_range: fields.level_range,
        publisher: fields.publisher,
        topics: fields.topics,
        summary: fields.summary,
        confidence: keep_within_one(fields.confidence),
        source,
    }
}

/// What is to be done next about a document that has been probed.
#[derive(Clone, Copy, PartialEq, Eq, Structural)]
pub enum Next {
    /// Look at its first page.
    Look,
    /// Describe it from its text.
    Describe,
}

/// A PDF with no extractable text is a picture. Look at it instead of guessing
/// from the file name — for a product code the file name carries nothing at all.
pub fn next_step(probe: &Probe, has_eyes: bool) -> (r: Next)
    ensures
        r == (if probe.scanned && has_eyes {
            Next::Look
        } else {
            Next::Describe
        }),
{
    if probe.scanned && has_eyes {
        Next::Look
    } else {
        Next::Describe
    }
}

/// Reading under way: the documents described so far, and those that could not
/// be.
pub struct Reading {
    pub digests: Vec<Digest>,
    pub unfiled: Vec<Unfiled>,
}

pub struct UnfiledView {
    pub path: Seq<char>,
    pub reason: Seq<char>,
}

impl View for Unfiled {
    type V = UnfiledView;

    open spec fn view(&self) -> UnfiledView {
        UnfiledView { path: self.path@, reason: self.reason@ }
    }
}

pub open spec fn unfiled_views(v: Seq<Unfiled>) -> Seq<UnfiledView> {
    Seq::new(v.len(), |i: int| v[i]@)
}

/// What a backend made of a document and its name, or why it failed.
pub open spec fn outcome_view(r: Result<(DigestFields, String), String>) -> Result<
    (DigestFieldsView, Seq<char>),
    Seq<char>,
> {
    match r {
        Ok((fields, source)) => Ok((fields@, source@)),
        Err(why) => Err(why@),
    }
}

/// A document was taken in: it has a digest from what a backend extracted, or is
/// listed with the reason why it has none.
pub open spec fn taken_in(
    before: Reading,
    after: Reading,
    doc: SourceDocView,
    outcome: Result<(DigestFieldsView, Seq<char>), Seq<char>>,
    r: Option<Digest>,
) -> bool {
    match outcome {
        Ok((fields, source)) => {
            &&& types::opt_digest(r) == Some(digest_of(doc, fields, source))
            &&& types::digest_views(after.digests@) == types::digest_views(before.digests@).push(
                digest_of(doc, fields, source),
            )
            &&& unfiled_views(after.unfiled@) == unfiled_views(before.unfiled@)
        },
        Err(why) => {
            &&& r is None
            &&& types::digest_views(after.digests@) == types::digest_views(before.digests@)
            &&& unfiled_views(after.unfiled@) == unfiled_views(before.unfiled@).push(
                undescribed(doc.path, why),
            )
        },
    }
}

/// What comes of an answer of a backend: the fields go with its name.
pub open spec fn signed_by(
    said: Result<DigestFieldsView, Seq<char>>,
    name: Seq<char>,
) -> Result<(DigestFieldsView, Seq<char>), Seq<char>> {
    match said {
        Ok(fields) => Ok((fields, name)),
        Err(why) => Err(why),
    }
}

/// Whether a backend may describe a document so, under a name of its own.
pub open spec fn brain_says<B: Brain>(
    asked: B,
    probe: ProbeView,
    answered: B,
    said: Result<DigestFieldsView, Seq<char>>,
    name: Seq<char>,
) -> bool {
    B::describes(asked, probe, answered, said) && (said is Ok ==> answered.is_called(name))
}

/// Whether eyes may see this in an image, under a name of their own.
pub open spec fn eyes_say<E: Eyes>(
    open: E,
    image: Seq<char>,
    probe: ProbeView,
    closed_again: E,
    seen: Result<DigestFieldsView, Seq<char>>,
    name: Seq<char>,
) -> bool {
    E::sees(open, image, probe, closed_again, seen) && (seen is Ok ==> closed_again.are_called(name))
}

/// A document was taken in as a backend described it.
pub open spec fn is_described<B: Brain>(
    asked: B,
    answered: B,
    before: Reading,
    after: Reading,
    doc: SourceDocView,
    probe: ProbeView,
    r: Option<Digest>,
) -> bool {
    exists|said: Result<DigestFieldsView, Seq<char>>, name: Seq<char>| #[trigger]
        brain_says(asked, probe, answered, said, name) && taken_in(
            before,
            after,
            doc,
            signed_by(said, name),
            r,
        )
}

/// A document was taken in as it was seen, without asking the backend; or nothing
/// could be seen, and it was taken in as the backend described it.
pub open spec fn is_seen<B: Brain, E: Eyes>(
    asked: B,
    answered: B,
    open: E,
    closed_again: E,
    before: Reading,
    after: Reading,
    doc: SourceDocView,
    probe: ProbeView,
    image: Seq<char>,
    r: Option<Digest>,
) -> bool {
    exists|seen: Result<DigestFieldsView, Seq<char>>, name: Seq<char>| #[trigger]
        eyes_say(open, image, probe, closed_again, seen, name) && match seen {
            Ok(fields) => answered == asked && taken_in(
                before,
                after,
                doc,
                Ok((fields, name)),
                r,
            ),
            Err(_) => is_described(asked, answered, before, after, doc, probe, r),
        }
}

/// Taking a document in adds one: as many documents have a digest or a reason as
/// were taken in.
pub proof fn every_document_is_described_or_listed(
    before: Reading,
    after: Reading,
    doc: SourceDocView,
    outcome: Result<(DigestFieldsView, Seq<char>), Seq<char>>,
    r: Option<Digest>,
)
    requires
        taken_in(before, after, doc, outcome, r),
    ensures
        after.digests@.len() + after.unfiled@.len() == before.digests@.len()
            + before.unfiled@.len() + 1,
        match r {
            Some(d) => d@.hash == doc.hash && d@.path == doc.path && !float::below(d@.confidence, 0)
                && !float::below(CERTAIN, d@.confidence),
            None => unfiled_views(after.unfiled@).last().path == doc.path,
        },
{
    assert(types::digest_views(after.digests@).len() == after.digests@.len());
    assert(types::digest_views(before.digests@).len() == before.digests@.len());
    assert(unfiled_views(after.unfiled@).len() == after.unfiled@.len());
    assert(unfiled_views(before.unfiled@).len() == before.unfiled@.len());
}

/// A document that no backend could describe.
pub open spec fn undescribed(path: Seq<char>, why: Seq<char>) -> UnfiledView {
    UnfiledView { path, reason: "could not be described: "@ + why }
}

impl Reading {
    /// Start from what the cache knew.
    pub fn new(cached: Vec<Digest>) -> (r: Self)
        ensures
            r.digests@ == cached@,
            r.unfiled@.len() == 0,
    {
        Reading { digests: cached, unfiled: Vec::new() }
    }

    /// A document whose text could not be had.
    pub fn unreadable(&mut self, doc: &SourceDoc, why: &str)
        ensures
            types::digest_views(final(self).digests@) == types::digest_views(old(self).digests@),
            unfiled_views(final(self).unfiled@) == unfiled_views(old(self).unfiled@).push(
                UnfiledView { path: doc.path@, reason: why@ },
            ),
    {
        let item = Unfiled { path: doc.path.clone(), reason: own(why) };
        let ghost before = self.unfiled@;
        self.unfiled.push(item);
        assert(unfiled_views(self.unfiled@) =~= unfiled_views(before).push(item@));
    }

    /// Take in what a backend made of a document: its fields and the backend's
    /// name, or why it failed. Returns the digest to be remembered.
    pub fn settle(&mut self, doc: &SourceDoc, outcome: Result<(DigestFields, String), String>) -> (r:
        Option<Digest>)
        ensures
            taken_in(*old(self), *final(self), doc@, outcome_view(outcome), r),
    {
        match outcome {
            Ok((fields, source)) => {
                let digest = to_digest(doc, fields, source);
                let copy = digest.clone();
                let ghost before = self.digests@;
                self.digests.push(digest);
                assert(types::digest_views(self.digests@) =~= types::digest_views(before).push(digest@));
                Some(copy)
            },
            Err(why) => {
                let mut reason = own("could not be described: ");
                reason.append(why.as_str());
                let item = Unfiled { path: doc.path.clone(), reason };
                let ghost before = self.unfiled@;
                self.unfiled.push(item);
                assert(unfiled_views(self.unfiled@) =~= unfiled_views(before).push(item@));
                None
            },
        }
    }

    /// Settle a document by asking the backend.
    fn ask<B: Brain>(&mut self, brain: &mut B, doc: &SourceDoc, probe: &Probe) -> (r: Option<
        Digest,
    >)
        ensures
            is_described(
                *old(brain),
                *final(brain),
                *old(self),
                *final(self),
                doc@,
                probe@,
                r,
            ),
    {
        let said = brain.digest(probe);
        let ghost answer = brain::fields_reply(said);
        let ghost mut name: Seq<char> = seq![];
        let outcome = match said {
            Ok(fields) => {
                let source = brain.name();
                proof {
                    name = source@;
                }
                Ok((fields, source))
            },
            Err(why) => Err(why),
        };
        assert(outcome_view(outcome) == signed_by(answer, name));
        let r = self.settle(doc, outcome);
        assert(brain_says(*old(brain), probe@, *brain, answer, name));
        r
    }

    /// Settle a document: by what was seen of it, if anything was, and otherwise
    /// by asking the backend.
    pub fn describe<B: Brain>(
        &mut self,
        brain: &mut B,
        doc: &SourceDoc,
        probe: &Probe,
        seen: Option<(DigestFields, String)>,
    ) -> (r: Option<Digest>)
        ensures
            match seen {
                Some((fields, source)) => *final(brain) == *old(brain) && taken_in(
                    *old(self),
                    *final(self),
                    doc@,
                    Ok((fields@, source@)),
                    r,
                ),
                None => is_described(
                    *old(brain),
                    *final(brain),
                    *old(self),
                    *final(self),
                    doc@,
                    probe@,
                    r,
                ),
            },
    {
        match seen {
            Some((fields, source)) => self.settle(doc, Ok((fields, source))),
            None => self.ask(brain, doc, probe),
        }
    }

    /// Take in a document. A picture is looked at if it was rendered and there
    /// are eyes; whatever was not seen is described from its text. The eyes are
    /// asked about nothing but pictures.
    pub fn read<B: Brain, E: Eyes>(
        &mut self,
        brain: &mut B,
        eyes: &mut Option<E>,
        doc: &SourceDoc,
        probe: &Probe,
        image: Option<&str>,
    ) -> (r: Option<Digest>)
        ensures
            match (image, *old(eyes), *final(eyes)) {
                (Some(picture), Some(open), Some(closed_again)) => probe.scanned ==> is_seen(
                    *old(brain),
                    *final(brain),
                    open,
                    closed_again,
                    *old(self),
                    *final(self),
                    doc@,
                    probe@,
                    picture@,
                    r,
                ),
                _ => true,
            },
            *final(eyes) is Some == *old(eyes) is Some,
            !(probe.scanned && image is Some && *old(eyes) is Some) ==> *final(eyes) == *old(eyes)
                && is_described(
                *old(brain),
                *final(brain),
                *old(self),
                *final(self),
                doc@,
                probe@,
                r,
            ),
    {
        let ghost open = *eyes;
        let ghost mut answer: Result<DigestFieldsView, Seq<char>> = Err(seq![]);
        let ghost mut name: Seq<char> = seq![];
        let mut seen: Option<(DigestFields, String)> = None;
        if let Some(path) = image {
            if let Some(e) = eyes {
                if next_step(probe, true) == Next::Look {
                    let told = e.describe(path, probe);
                    proof {
                        answer = brain::fields_reply(told);
                    }
                    if let Ok(fields) = told {
                        let source = e.name();
                        proof {
                            name = source@;
                        }
                        seen = Some((fields, source));
                    }
                }
            }
        }
        let ghost shut = *eyes;
        let r = self.describe(brain, doc, probe, seen);
        proof {
            if probe.scanned && image is Some && open is Some {
                assert(eyes_say(open->0, image->0@, probe@, shut->0, answer, name));
            }
        }
        r
    }
}

// ---------------------------------------------------------------------------
// Re-saved copies
// ---------------------------------------------------------------------------

/// The characters of a title that identify the work.
pub open spec fn identifying(title: Seq<char>) -> Seq<char>
    decreases title.len(),
{
    if title.len() == 0 {
        seq![]
    } else {
        let before = identifying(title.drop_last());
        if text::alphanumeric_char(title.last()) || text::is_white(title.last()) {
            before.push(title.last())
        } else {
            before
        }
    }
}

/// A title reduced to what identifies the work.
pub open spec fn work_key(title: Seq<char>) -> Seq<char> {
    text::collapsed(text::lowered(identifying(title)))
}

/// Characters that are neither letters, digits nor white space tell no two titles
/// apart.
pub proof fn punctuation_does_not_identify(a: Seq<char>, c: char, b: Seq<char>)
    requires
        !text::alphanumeric_char(c),
        !text::is_white(c),
    ensures
        work_key(a.push(c) + b) == work_key(a + b),
{
    lemma_identifying(a, c, b);
}

proof fn lemma_identifying(a: Seq<char>, c: char, b: Seq<char>)
    requires
        !text::alphanumeric_char(c),
        !text::is_white(c),
    ensures
        identifying(a.push(c) + b) == identifying(a + b),
    decreases b.len(),
{
    if b.len() == 0 {
        assert(a.push(c) + b =~= a.push(c));
        assert(a + b =~= a);
        assert(a.push(c).drop_last() =~= a);
    } else {
        lemma_identifying(a, c, b.drop_last());
        assert((a.push(c) + b).drop_last() =~= a.push(c) + b.drop_last());
        assert((a + b).drop_last() =~= a + b.drop_last());
    }
}

/// Titles of nothing but letters, digits and white space have one key where they are
/// alike in lower case, word by word.
pub proof fn words_identify_a_title(a: Seq<char>)
    requires
        forall|i: int|
            0 <= i < a.len() ==> text::alphanumeric_char(#[trigger] a[i]) || text::is_white(a[i]),
    ensures
        work_key(a) == text::collapsed(text::lowered(a)),
{
    lemma_all_identifying(a);
}

proof fn lemma_all_identifying(a: Seq<char>)
    requires
        forall|i: int|
            0 <= i < a.len() ==> text::alphanumeric_char(#[trigger] a[i]) || text::is_white(a[i]),
    ensures
        identifying(a) == a,
    decreases a.len(),
{
    if a.len() > 0 {
        let front = a.drop_last();
        assert forall|i: int| 0 <= i < front.len() implies text::alphanumeric_char(
            #[trigger] front[i],
        ) || text::is_white(front[i]) by {
            assert(front[i] == a[i]);
        }
        lemma_all_identifying(front);
        assert(text::alphanumeric_char(a[a.len() - 1]) || text::is_white(a[a.len() - 1]));
        assert(front.push(a.last()) =~= a);
    } else {
        assert(identifying(a) =~= a);
    }
}

/// A title reduced to what identifies the work, for grouping re-saves.
pub fn title_key(title: &str) -> (r: String)
    ensures
        r@ == work_key(title@),
{
    let s = chars_of(title);
    let mut kept: Vec<char> = Vec::new();
    let mut i: usize = 0;
    assert(s@.take(0) =~= Seq::<char>::empty());
    while i < s.len()
        invariant
            s@ == title@,
            i <= s@.len(),
            kept@ == identifying(s@.take(i as int)),
        decreases s@.len() - i,
    {
        assert(s@.take(i + 1).drop_last() =~= s@.take(i as int));
        let c = s[i];
        if alphanumeric(c) || white(c) {
            kept.push(c);
        }
        i = i + 1;
    }
    assert(s@.take(i as int) =~= s@);
    let lower = lowercase(text_of(kept.as_slice()).as_str());
    text_of(collapse(chars_of(lower.as_str()).as_slice()).as_slice())
}

/// A described document, with the size of its file and its page count.
pub struct Edition {
    pub digest: Digest,
    pub bytes: u64,
    pub pages: Option<usize>,
}

pub struct EditionView {
    pub digest: DigestView,
    pub bytes: u64,
    pub pages: Option<usize>,
}

impl View for Edition {
    type V = EditionView;

    open spec fn view(&self) -> EditionView {
        EditionView { digest: self.digest@, bytes: self.bytes, pages: self.pages }
    }
}

impl Clone for Edition {
    fn clone(&self) -> (r: Self)
        ensures
            r@ == self@,
    {
        Edition { digest: self.digest.clone(), bytes: self.bytes, pages: self.pages }
    }
}

pub open spec fn edition_views(v: Seq<Edition>) -> Seq<EditionView> {
    Seq::new(v.len(), |i: int| v[i]@)
}

/// Whether one file is a re-save of another: the same number of pages, and a
/// size that differs by no more than a share of the other's. A different page
/// count means a different edition or printing, not a re-save.
pub open spec fn is_resave(winner: EditionView, other: EditionView, tolerance: u32) -> bool {
    let base = if winner.bytes > 0 {
        winner.bytes as nat
    } else {
        1
    };
    let spread = if winner.bytes > other.bytes {
        (winner.bytes - other.bytes) as nat
    } else {
        (other.bytes - winner.bytes) as nat
    };
    winner.pages == other.pages && float::at_least(
        tolerance,
        float::quotient(float::of_whole(spread), float::of_whole(base)),
    )
}

/// The re-saves of a file among some others.
pub open spec fn resaves(
    winner: EditionView,
    rest: Seq<EditionView>,
    tolerance: u32,
) -> Seq<EditionView>
    decreases rest.len(),
{
    if rest.len() == 0 {
        seq![]
    } else {
        let before = resaves(winner, rest.drop_last(), tolerance);
        if is_resave(winner, rest.last(), tolerance) {
            before.push(rest.last())
        } else {
            before
        }
    }
}

/// The files that are no re-saves of another.
pub open spec fn different(
    winner: EditionView,
    rest: Seq<EditionView>,
    tolerance: u32,
) -> Seq<EditionView>
    decreases rest.len(),
{
    if rest.len() == 0 {
        seq![]
    } else {
        let before = different(winner, rest.drop_last(), tolerance);
        if is_resave(winner, rest.last(), tolerance) {
            before
        } else {
            before.push(rest.last())
        }
    }
}

pub proof fn lemma_parted(winner: EditionView, rest: Seq<EditionView>, tolerance: u32)
    ensures
        resaves(winner, rest, tolerance).len() + different(winner, rest, tolerance).len()
            == rest.len(),
    decreases rest.len(),
{
    if rest.len() > 0 {
        lemma_parted(winner, rest.drop_last(), tolerance);
    }
}

/// The works among files of one title, largest file first: the first is a work,
/// and so are those among the others that are no re-saves of it.
pub open spec fn works(line: Seq<EditionView>, tolerance: u32) -> Seq<EditionView>
    decreases line.len(),
{
    if line.len() == 0 {
        seq![]
    } else {
        proof {
            lemma_parted(line[0], line.skip(1), tolerance);
        }
        seq![line[0]] + works(different(line[0], line.skip(1), tolerance), tolerance)
    }
}

pub open spec fn edition_paths(v: Seq<EditionView>) -> Seq<Seq<char>> {
    Seq::new(v.len(), |i: int| v[i].digest.path)
}

/// The groups of re-saves among files of one title, largest file first.
pub open spec fn resave_groups(line: Seq<EditionView>, tolerance: u32) -> Seq<DuplicateView>
    decreases line.len(),
{
    if line.len() == 0 {
        seq![]
    } else {
        proof {
            lemma_parted(line[0], line.skip(1), tolerance);
        }
        let copies = resaves(line[0], line.skip(1), tolerance);
        let rest = resave_groups(different(line[0], line.skip(1), tolerance), tolerance);
        if copies.len() == 0 {
            rest
        } else {
            seq![
                DuplicateView {
                    hash: line[0].digest.hash,
                    kept: line[0].digest.path,
                    others: edition_paths(copies),
                },
            ] + rest
        }
    }
}

/// The largest file comes first: it is the least likely to have been through a
/// lossy re-save.
pub open spec fn size_rank(e: EditionView) -> i128 {
    (0 - e.bytes) as i128
}

pub open spec fn size_keys(v: Seq<EditionView>) -> Seq<Seq<i128>> {
    Seq::new(v.len(), |i: int| seq![size_rank(v[i])])
}

/// The files whose key is `key`, in order.
pub open spec fn titled(
    v: Seq<EditionView>,
    keys: Seq<Seq<char>>,
    key: Seq<char>,
) -> Seq<EditionView>
    decreases v.len(),
{
    if v.len() == 0 || v.len() != keys.len() {
        seq![]
    } else {
        let before = titled(v.drop_last(), keys.drop_last(), key);
        if keys.last() == key {
            before.push(v.last())
        } else {
            before
        }
    }
}

/// The files of one title, largest first.
pub open spec fn by_size(v: Seq<EditionView>, keys: Seq<Seq<char>>, key: Seq<char>) -> Seq<
    EditionView,
> {
    order::arranged(titled(v, keys, key), size_keys(titled(v, keys, key)))
}

pub open spec fn is_first_key(keys: Seq<Seq<char>>, i: int) -> bool {
    forall|j: int| 0 <= j < i ==> #[trigger] keys[j] != keys[i]
}

/// The works of the titles among the first `n` files.
pub open spec fn all_works(
    v: Seq<EditionView>,
    keys: Seq<Seq<char>>,
    tolerance: u32,
    n: int,
) -> Seq<EditionView>
    decreases n,
{
    if n <= 0 {
        seq![]
    } else if is_first_key(keys, n - 1) {
        all_works(v, keys, tolerance, n - 1) + works(by_size(v, keys, keys[n - 1]), tolerance)
    } else {
        all_works(v, keys, tolerance, n - 1)
    }
}

/// The groups of re-saves of the titles among the first `n` files.
pub open spec fn all_resaves(
    v: Seq<EditionView>,
    keys: Seq<Seq<char>>,
    tolerance: u32,
    n: int,
) -> Seq<DuplicateView>
    decreases n,
{
    if n <= 0 {
        seq![]
    } else if is_first_key(keys, n - 1) {
        all_resaves(v, keys, tolerance, n - 1) + resave_groups(
            by_size(v, keys, keys[n - 1]),
            tolerance,
        )
    } else {
        all_resaves(v, keys, tolerance, n - 1)
    }
}

pub open spec fn edition_digests(v: Seq<EditionView>) -> Seq<DigestView> {
    Seq::new(v.len(), |i: int| v[i].digest)
}

/// The digests to keep when files of one title are folded together, in path
/// order.
pub open spec fn folded_digests(
    v: Seq<EditionView>,
    keys: Seq<Seq<char>>,
    tolerance: u32,
) -> Seq<DigestView> {
    let kept = all_works(v, keys, tolerance, v.len() as int);
    order::arranged(edition_digests(kept), scan::path_keys(edition_paths(kept)))
}

/// The groups of files folded together, in the order of the paths kept.
pub open spec fn folded_groups(
    v: Seq<EditionView>,
    keys: Seq<Seq<char>>,
    tolerance: u32,
) -> Seq<DuplicateView> {
    let groups = all_resaves(v, keys, tolerance, v.len() as int);
    order::arranged(groups, scan::path_keys(scan::kept_paths(groups)))
}

fn resave(winner: &Edition, other: &Edition, tolerance: u32) -> (r: bool)
    ensures
        r == is_resave(winner@, other@, tolerance),
{
    let same_pages = match (winner.pages, other.pages) {
        (Some(a), Some(b)) => a == b,
        (None, None) => true,
        _ => false,
    };
    if !same_pages {
        return false;
    }
    let base: u64 = if winner.bytes > 0 {
        winner.bytes
    } else {
        1
    };
    let spread: u64 = if winner.bytes > other.bytes {
        winner.bytes - other.bytes
    } else {
        other.bytes - winner.bytes
    };
    reaches(tolerance, divide(from_whole(spread), from_whole(base)))
}

/// The groups found so far in files of one title, and those still to be judged.
fn fold_line(
    line: Vec<Edition>,
    tolerance: u32,
    kept: &mut Vec<Digest>,
    groups: &mut Vec<Duplicate>,
)
    ensures
        types::digest_views(final(kept)@) == types::digest_views(old(kept)@) + edition_digests(
            works(edition_views(line@), tolerance),
        ),
        types::duplicate_views(final(groups)@) == types::duplicate_views(old(groups)@) + resave_groups(
            edition_views(line@),
            tolerance,
        ),
    decreases line@.len(),
{
    let ghost all = edition_views(line@);
    let ghost start_kept = types::digest_views(kept@);
    let ghost start_groups = types::duplicate_views(groups@);
    if line.len() == 0 {
        assert(types::digest_views(kept@) =~= start_kept + edition_digests(works(all, tolerance)));
        assert(types::duplicate_views(groups@) =~= start_groups + resave_groups(all, tolerance));
        return;
    }
    let winner = &line[0];
    let ghost rest = all.skip(1);
    let mut others: Vec<String> = Vec::new();
    let mut left: Vec<Edition> = Vec::new();
    let mut i: usize = 1;
    assert(rest.take(0) =~= Seq::<EditionView>::empty());
    assert(text::texts(others@) =~= edition_paths(resaves(winner@, rest.take(0), tolerance)));
    assert(edition_views(left@) =~= different(winner@, rest.take(0), tolerance));
    while i < line.len()
        invariant
            all == edition_views(line@),
            rest == all.skip(1),
            1 <= i <= line@.len(),
            winner@ == line@[0]@,
            text::texts(others@) == edition_paths(resaves(winner@, rest.take(i - 1), tolerance)),
            edition_views(left@) == different(winner@, rest.take(i - 1), tolerance),
            left@.len() < i,
        decreases line@.len() - i,
    {
        let other = &line[i];
        assert(rest.take(i as int).drop_last() =~= rest.take(i - 1));
        assert(rest.take(i as int).last() == other@);
        if resave(winner, other, tolerance) {
            let ghost before = others@;
            let path = other.digest.path.clone();
            others.push(path);
            proof {
                assert(text::texts(others@) =~= text::texts(before).push(path@));
                assert(text::texts(others@) =~= edition_paths(
                    resaves(winner@, rest.take(i as int), tolerance),
                ));
            }
        } else {
            let ghost before = left@;
            let copy = other.clone();
            left.push(copy);
            assert(edition_views(left@) =~= edition_views(before).push(other@));
        }
        i = i + 1;
    }
    assert(rest.take(i - 1) =~= rest);
    let ghost copies = resaves(winner@, rest, tolerance);
    assert(others@.len() == copies.len()) by {
        assert(text::texts(others@).len() == others@.len());
    }
    let ghost before_groups = groups@;
    if others.len() > 0 {
        let found = Duplicate {
            hash: winner.digest.hash.clone(),
            kept: winner.digest.path.clone(),
            others,
        };
        groups.push(found);
        assert(types::duplicate_views(groups@) =~= types::duplicate_views(before_groups).push(found@));
    }
    let ghost before_kept = kept@;
    let first = winner.digest.clone();
    kept.push(first);
    assert(types::digest_views(kept@) =~= types::digest_views(before_kept).push(first@));
    fold_line(left, tolerance, kept, groups);
    proof {
        assert(all[0] == line@[0]@);
        assert(types::digest_views(kept@) =~= start_kept + edition_digests(works(all, tolerance)));
        assert(types::duplicate_views(groups@) =~= start_groups + resave_groups(all, tolerance));
    }
}

fn first_key(keys: &Vec<String>, i: usize) -> (r: bool)
    requires
        i < keys@.len(),
    ensures
        r == is_first_key(text::texts(keys@), i as int),
{
    let ghost all = text::texts(keys@);
    let mut j: usize = 0;
    while j < i
        invariant
            all == text::texts(keys@),
            j <= i < keys@.len(),
            forall|k: int| 0 <= k < j ==> #[trigger] all[k] != all[i as int],
        decreases i - j,
    {
        if same(keys[j].as_str(), keys[i].as_str()) {
            assert(all[j as int] == all[i as int]);
            return false;
        }
        j = j + 1;
    }
    true
}

/// The files that share the key at `n`, largest first.
fn line_up(v: &Vec<Edition>, keys: &Vec<String>, n: usize) -> (r: Vec<Edition>)
    requires
        n < v@.len(),
        v@.len() == keys@.len(),
    ensures
        edition_views(r@) == by_size(edition_views(v@), text::texts(keys@), keys@[n as int]@),
{
    let ghost all = edition_views(v@);
    let ghost names = text::texts(keys@);
    let ghost key = keys@[n as int]@;
    let mut out: Vec<Edition> = Vec::new();
    let mut sizes: Vec<Vec<i128>> = Vec::new();
    let mut i: usize = 0;
    assert(all.take(0) =~= Seq::<EditionView>::empty());
    assert(edition_views(out@) =~= Seq::<EditionView>::empty());
    while i < v.len()
        invariant
            n < v@.len(),
            v@.len() == keys@.len(),
            all == edition_views(v@),
            names == text::texts(keys@),
            key == keys@[n as int]@,
            i <= v@.len(),
            edition_views(out@) == titled(all.take(i as int), names.take(i as int), key),
            sizes@.len() == out@.len(),
            order::key_lists(sizes@) =~= size_keys(edition_views(out@)),
        decreases v@.len() - i,
    {
        let e = &v[i];
        assert(all.take(i + 1).drop_last() =~= all.take(i as int));
        assert(all.take(i + 1).last() == e@);
        assert(names.take(i + 1).drop_last() =~= names.take(i as int));
        assert(names.take(i + 1).last() == keys@[i as int]@);
        if same(keys[i].as_str(), keys[n].as_str()) {
            let ghost before = out@;
            let ghost old_sizes = sizes@;
            let rank: i128 = 0 - e.bytes as i128;
            let size: Vec<i128> = vec![rank];
            assert(size@ =~= seq![size_rank(e@)]);
            sizes.push(size);
            let copy = e.clone();
            out.push(copy);
            proof {
                assert(edition_views(out@) =~= edition_views(before).push(e@));
                assert(order::key_lists(sizes@) =~= order::key_lists(old_sizes).push(size@));
            }
        }
        i = i + 1;
    }
    assert(all.take(i as int) =~= all && names.take(i as int) =~= names);
    let r = sort_by_keys(out, &sizes);
    assert(edition_views(r@) =~= by_size(all, names, key));
    r
}

/// Fold together files whose titles have one key.
pub fn fold_by_keys(editions: &Vec<Edition>, keys: &Vec<String>, tolerance: u32) -> (r: (
    Vec<Digest>,
    Vec<Duplicate>,
))
    requires
        editions@.len() == keys@.len(),
    ensures
        types::digest_views(r.0@) == folded_digests(edition_views(editions@), text::texts(keys@), tolerance),
        types::duplicate_views(r.1@) == folded_groups(edition_views(editions@), text::texts(keys@), tolerance),
{
    let ghost all = edition_views(editions@);
    let ghost names = text::texts(keys@);
    let mut kept: Vec<Digest> = Vec::new();
    let mut groups: Vec<Duplicate> = Vec::new();
    let mut i: usize = 0;
    assert(types::digest_views(kept@) =~= edition_digests(all_works(all, names, tolerance, 0)));
    assert(types::duplicate_views(groups@) =~= all_resaves(all, names, tolerance, 0));
    while i < editions.len()
        invariant
            editions@.len() == keys@.len(),
            all == edition_views(editions@),
            names == text::texts(keys@),
            i <= editions@.len(),
            types::digest_views(kept@) == edition_digests(all_works(all, names, tolerance, i as int)),
            types::duplicate_views(groups@) == all_resaves(all, names, tolerance, i as int),
        decreases editions@.len() - i,
    {
        if first_key(keys, i) {
            let line = line_up(editions, keys, i);
            assert(names[i as int] == keys@[i as int]@);
            fold_line(line, tolerance, &mut kept, &mut groups);
            assert(types::digest_views(kept@) =~= edition_digests(
                all_works(all, names, tolerance, i + 1),
            ));
        }
        i = i + 1;
    }
    let ghost works_kept = all_works(all, names, tolerance, all.len() as int);
    let ghost groups_found = types::duplicate_views(groups@);
    let mut kept_keys: Vec<Vec<i128>> = Vec::new();
    let mut k: usize = 0;
    while k < kept.len()
        invariant
            types::digest_views(kept@) == edition_digests(works_kept),
            k <= kept@.len(),
            kept_keys@.len() == k,
            order::key_lists(kept_keys@) =~= scan::path_keys(edition_paths(works_kept)).take(k as int),
        decreases kept@.len() - k,
    {
        let ghost before = kept_keys@;
        assert(types::digest_views(kept@)[k as int] == kept@[k as int]@);
        assert(works_kept.len() == kept@.len()) by {
            assert(edition_digests(works_kept).len() == types::digest_views(kept@).len());
        }
        assert(edition_digests(works_kept)[k as int] == works_kept[k as int].digest);
        let key = path_key_of(kept[k].path.as_str());
        kept_keys.push(key);
        proof {
            assert(order::key_lists(kept_keys@) =~= order::key_lists(before).push(key@));
        }
        k = k + 1;
    }
    assert(types::digest_views(kept@).len() == works_kept.len());
    assert(scan::path_keys(edition_paths(works_kept)).take(k as int) =~= scan::path_keys(
        edition_paths(works_kept),
    ));
    let mut group_keys: Vec<Vec<i128>> = Vec::new();
    let mut g: usize = 0;
    while g < groups.len()
        invariant
            groups_found == types::duplicate_views(groups@),
            g <= groups@.len(),
            group_keys@.len() == g,
            order::key_lists(group_keys@) =~= scan::path_keys(scan::kept_paths(groups_found)).take(g as int),
        decreases groups@.len() - g,
    {
        let ghost before = group_keys@;
        let key = path_key_of(groups[g].kept.as_str());
        group_keys.push(key);
        proof {
            assert(order::key_lists(group_keys@) =~= order::key_lists(before).push(key@));
        }
        g = g + 1;
    }
    assert(scan::path_keys(scan::kept_paths(groups_found)).take(g as int) =~= scan::path_keys(
        scan::kept_paths(groups_found),
    ));
    let sorted = sort_by_keys(kept, &kept_keys);
    let sorted_groups = sort_by_keys(groups, &group_keys);
    assert(types::digest_views(sorted@) =~= folded_digests(all, names, tolerance));
    assert(types::duplicate_views(sorted_groups@) =~= folded_groups(all, names, tolerance));
    (sorted, sorted_groups)
}

pub open spec fn work_keys(v: Seq<EditionView>) -> Seq<Seq<char>> {
    Seq::new(v.len(), |i: int| work_key(v[i].digest.title))
}

/// Fold together documents that are the same work saved twice.
///
/// Exact copies are caught by fingerprint before anything is read. This catches
/// the re-download: same title, same page count, a few kilobytes apart because
/// the metadata or compression differs. The largest copy is kept — it is the
/// least likely to have been through a lossy re-save — and the rest are listed
/// as duplicates rather than filed alongside as "Title (2)".
pub fn fold_near_duplicates(editions: &Vec<Edition>, tolerance: u32) -> (r: (
    Vec<Digest>,
    Vec<Duplicate>,
))
    ensures
        types::digest_views(r.0@) == folded_digests(
            edition_views(editions@),
            work_keys(edition_views(editions@)),
            tolerance,
        ),
        types::duplicate_views(r.1@) == folded_groups(
            edition_views(editions@),
            work_keys(edition_views(editions@)),
            tolerance,
        ),
        forall|g: int, o: int|
            #![trigger r.1@[g].others@[o]]
            0 <= g < r.1@.len() && 0 <= o < r.1@[g].others@.len() ==> lists_a_resave(
                edition_views(editions@),
                r.1@[g]@,
                r.1@[g].others@[o]@,
                tolerance,
            ),
{
    let keys = title_keys(editions);
    let r = fold_by_keys(editions, &keys, tolerance);
    proof {
        let v = edition_views(editions@);
        let groups = types::duplicate_views(r.1@);
        assert forall|g: int, o: int|
            #![trigger r.1@[g].others@[o]]
            0 <= g < r.1@.len() && 0 <= o < r.1@[g].others@.len() implies lists_a_resave(
            v,
            r.1@[g]@,
            r.1@[g].others@[o]@,
            tolerance,
        ) by {
            assert(groups[g] == r.1@[g]@);
            assert(groups[g].others[o] == r.1@[g].others@[o]@);
            copies_are_folded_into_resaves(v, tolerance, g, o);
        }
    }
    r
}

fn title_keys(editions: &Vec<Edition>) -> (r: Vec<String>)
    ensures
        text::texts(r@) == work_keys(edition_views(editions@)),
        r@.len() == editions@.len(),
{
    let ghost all = edition_views(editions@);
    let mut keys: Vec<String> = Vec::new();
    let mut i: usize = 0;
    while i < editions.len()
        invariant
            all == edition_views(editions@),
            i <= editions@.len(),
            keys@.len() == i,
            text::texts(keys@) =~= work_keys(all).take(i as int),
        decreases editions@.len() - i,
    {
        let ghost before = keys@;
        let key = title_key(editions[i].digest.title.as_str());
        keys.push(key);
        assert(text::texts(keys@) =~= text::texts(before).push(key@));
        i = i + 1;
    }
    assert(work_keys(all).take(i as int) =~= work_keys(all));
    keys
}

/// Which titles are shared: page counts are only needed for those.
pub fn contested(digests: &Vec<Digest>) -> (r: Vec<bool>)
    ensures
        r@.len() == digests@.len(),
        forall|i: int|
            0 <= i < r@.len() ==> #[trigger] r@[i] == (exists|j: int|
                0 <= j < digests@.len() && j != i && work_key((#[trigger] digests@[j]).title@)
                    == work_key(digests@[i].title@)),
{
    let mut keys: Vec<String> = Vec::new();
    let mut i: usize = 0;
    while i < digests.len()
        invariant
            i <= digests@.len(),
            keys@.len() == i,
            forall|j: int| 0 <= j < i ==> (#[trigger] keys@[j])@ == work_key(digests@[j].title@),
        decreases digests@.len() - i,
    {
        keys.push(title_key(digests[i].title.as_str()));
        i = i + 1;
    }
    let mut out: Vec<bool> = Vec::new();
    let mut n: usize = 0;
    while n < digests.len()
        invariant
            n <= digests@.len(),
            keys@.len() == digests@.len(),
            forall|j: int|
                0 <= j < keys@.len() ==> (#[trigger] keys@[j])@ == work_key(digests@[j].title@),
            out@.len() == n,
            forall|i: int|
                0 <= i < n ==> #[trigger] out@[i] == (exists|j: int|
                    0 <= j < digests@.len() && j != i && work_key((#[trigger] digests@[j]).title@)
                        == work_key(digests@[i].title@)),
        decreases digests@.len() - n,
    {
        let mut shared = false;
        let mut j: usize = 0;
        while j < digests.len()
            invariant
                n < digests@.len(),
                j <= digests@.len(),
                keys@.len() == digests@.len(),
                forall|j: int|
                    0 <= j < keys@.len() ==> (#[trigger] keys@[j])@ == work_key(
                        digests@[j].title@,
                    ),
                shared == (exists|k: int|
                    0 <= k < j && k != n && work_key((#[trigger] digests@[k]).title@) == work_key(
                        digests@[n as int].title@,
                    )),
            decreases digests@.len() - j,
        {
            let ghost was = shared;
            if j != n && same(keys[j].as_str(), keys[n].as_str()) {
                assert(work_key(digests@[j as int].title@) == work_key(digests@[n as int].title@));
                shared = true;
            }
            proof {
                if was {
                    let k = choose|k: int|
                        0 <= k < j && k != n && work_key((#[trigger] digests@[k]).title@)
                            == work_key(digests@[n as int].title@);
                    assert(work_key(digests@[k].title@) == work_key(digests@[n as int].title@));
                }
            }
            j = j + 1;
        }
        out.push(shared);
        n = n + 1;
    }
    out
}

/// No file is larger than one before it.
pub open spec fn largest_first(line: Seq<EditionView>) -> bool {
    forall|a: int, b: int|
        0 <= a < b < line.len() ==> (#[trigger] line[a]).bytes >= (#[trigger] line[b]).bytes
}

proof fn lemma_resaves(winner: EditionView, rest: Seq<EditionView>, tolerance: u32, e: EditionView)
    ensures
        resaves(winner, rest, tolerance).contains(e) <==> rest.contains(e) && is_resave(
            winner,
            e,
            tolerance,
        ),
        different(winner, rest, tolerance).contains(e) <==> rest.contains(e) && !is_resave(
            winner,
            e,
            tolerance,
        ),
    decreases rest.len(),
{
    if rest.len() > 0 {
        let part = rest.drop_last();
        let last = rest.last();
        lemma_resaves(winner, part, tolerance, e);
        assert(rest =~= part.push(last));
        assert(rest.contains(e) <==> part.contains(e) || e == last) by {
            if part.contains(e) {
                let k = choose|k: int| 0 <= k < part.len() && part[k] == e;
                assert(rest[k] == e);
            }
            if rest.contains(e) {
                let k = choose|k: int| 0 <= k < rest.len() && rest[k] == e;
                if k < part.len() {
                    assert(part[k] == e);
                }
            }
            assert(rest[part.len() as int] == last);
        }
        lemma_push_contains(resaves(winner, part, tolerance), last, e);
        lemma_push_contains(different(winner, part, tolerance), last, e);
    }
}

pub proof fn lemma_push_contains<T>(s: Seq<T>, x: T, e: T)
    ensures
        s.push(x).contains(e) <==> s.contains(e) || e == x,
{
    if s.contains(e) {
        let k = choose|k: int| 0 <= k < s.len() && s[k] == e;
        assert(s.push(x)[k] == e);
    }
    if s.push(x).contains(e) {
        let k = choose|k: int| 0 <= k < s.push(x).len() && s.push(x)[k] == e;
        if k < s.len() {
            assert(s[k] == e);
        }
    }
    assert(s.push(x)[s.len() as int] == x);
}

proof fn lemma_different_sorted(winner: EditionView, rest: Seq<EditionView>, tolerance: u32)
    requires
        largest_first(rest),
    ensures
        largest_first(different(winner, rest, tolerance)),
    decreases rest.len(),
{
    if rest.len() > 0 {
        let part = rest.drop_last();
        assert(largest_first(part)) by {
            assert forall|a: int, b: int| 0 <= a < b < part.len() implies (#[trigger] part[a]).bytes
                >= (#[trigger] part[b]).bytes by {
                assert(part[a] == rest[a] && part[b] == rest[b]);
            }
        }
        lemma_different_sorted(winner, part, tolerance);
        let before = different(winner, part, tolerance);
        let now = different(winner, rest, tolerance);
        assert forall|a: int, b: int| 0 <= a < b < now.len() implies (#[trigger] now[a]).bytes >= (
        #[trigger] now[b]).bytes by {
            if b < before.len() {
                assert(now[a] == before[a] && now[b] == before[b]);
            } else {
                assert(now[a] == before[a]);
                assert(before.contains(before[a]));
                lemma_resaves(winner, part, tolerance, before[a]);
                let k = choose|k: int| 0 <= k < part.len() && part[k] == before[a];
                assert(rest[k].bytes >= rest[rest.len() - 1].bytes);
            }
        }
    }
}

/// Among the files of one title, each is kept as a work of its own, or it is
/// listed under a work that it is a re-save of and that is no smaller.
pub proof fn every_edition_is_kept_or_listed(line: Seq<EditionView>, tolerance: u32, e: EditionView)
    requires
        largest_first(line),
        line.contains(e),
    ensures
        works(line, tolerance).contains(e) || exists|k: int, g: int|
            0 <= k < works(line, tolerance).len() && 0 <= g < resave_groups(line, tolerance).len()
                && is_resave(#[trigger] works(line, tolerance)[k], e, tolerance) && works(
                line,
                tolerance,
            )[k].bytes >= e.bytes && (#[trigger] resave_groups(line, tolerance)[g]).kept == works(
                line,
                tolerance,
            )[k].digest.path && resave_groups(line, tolerance)[g].others.contains(e.digest.path),
    decreases line.len(),
{
    lemma_parted(line[0], line.skip(1), tolerance);
    let rest = line.skip(1);
    let winner = line[0];
    let copies = resaves(winner, rest, tolerance);
    let left = different(winner, rest, tolerance);
    let all = works(line, tolerance);
    let groups = resave_groups(line, tolerance);
    let i = choose|i: int| 0 <= i < line.len() && line[i] == e;
    assert(all[0] == winner);
    if i == 0 {
        assert(all.contains(e));
    } else {
        assert(rest[i - 1] == e);
        assert(rest.contains(e));
        lemma_resaves(winner, rest, tolerance, e);
        if is_resave(winner, e, tolerance) {
            assert(copies.contains(e));
            let c = choose|c: int| 0 <= c < copies.len() && copies[c] == e;
            assert(edition_paths(copies)[c] == e.digest.path);
            assert(groups[0].kept == winner.digest.path);
            assert(groups[0].others == edition_paths(copies));
            assert(line[0].bytes >= line[i].bytes);
            assert(is_resave(all[0], e, tolerance));
        } else {
            assert(largest_first(rest)) by {
                assert forall|a: int, b: int| 0 <= a < b < rest.len() implies (
                #[trigger] rest[a]).bytes >= (#[trigger] rest[b]).bytes by {
                    assert(rest[a] == line[a + 1] && rest[b] == line[b + 1]);
                }
            }
            lemma_different_sorted(winner, rest, tolerance);
            every_edition_is_kept_or_listed(left, tolerance, e);
            let inner = works(left, tolerance);
            let inner_groups = resave_groups(left, tolerance);
            assert(all == seq![winner] + inner);
            if inner.contains(e) {
                let k = choose|k: int| 0 <= k < inner.len() && inner[k] == e;
                assert(all[k + 1] == e);
            } else {
                let (k, g) = choose|k: int, g: int|
                    0 <= k < inner.len() && 0 <= g < inner_groups.len() && is_resave(
                        #[trigger] inner[k],
                        e,
                        tolerance,
                    ) && inner[k].bytes >= e.bytes && (#[trigger] inner_groups[g]).kept
                        == inner[k].digest.path && inner_groups[g].others.contains(e.digest.path);
                assert(all[k + 1] == inner[k]);
                let shift = groups.len() - inner_groups.len();
                assert(shift == 0 || shift == 1);
                assert(groups[g + shift] == inner_groups[g]);
                assert(is_resave(all[k + 1], e, tolerance));
            }
        }
    }
}

/// The files of one title are judged largest first.
pub proof fn titles_are_judged_largest_first(
    v: Seq<EditionView>,
    keys: Seq<Seq<char>>,
    key: Seq<char>,
)
    ensures
        largest_first(by_size(v, keys, key)),
{
    let group = titled(v, keys, key);
    let sizes = size_keys(group);
    order::every_list_has_an_order(sizes);
    let p = order::order_of(sizes);
    let line = by_size(v, keys, key);
    assert forall|a: int, b: int| 0 <= a < b < line.len() implies (#[trigger] line[a]).bytes >= (
    #[trigger] line[b]).bytes by {
        assert(order::ranks_before(sizes, p[a], p[b]));
        let x = sizes[p[a]];
        let y = sizes[p[b]];
        assert(x == seq![size_rank(group[p[a]])] && y == seq![size_rank(group[p[b]])]);
        assert(x[0] == size_rank(group[p[a]]) && y[0] == size_rank(group[p[b]]));
        assert(!order::lex_before(x.drop_first(), y.drop_first()));
    }
}

/// Whether one file is kept in the place of another: their titles identify one
/// work, they have the same number of pages, and the one that is kept is no
/// smaller, by at most a share of its size.
pub open spec fn stands_for(kept: EditionView, other: EditionView, tolerance: u32) -> bool {
    &&& work_key(kept.digest.title) == work_key(other.digest.title)
    &&& kept.pages == other.pages
    &&& kept.bytes >= other.bytes
    &&& float::at_least(
        tolerance,
        float::quotient(
            float::of_whole((kept.bytes - other.bytes) as nat),
            float::of_whole(
                if kept.bytes >= 1 {
                    kept.bytes as nat
                } else {
                    1
                },
            ),
        ),
    )
}

/// Whether two of the files given are the one that a group keeps and one that it
/// lists under a path.
pub open spec fn is_listed_for(
    v: Seq<EditionView>,
    a: int,
    b: int,
    group: DuplicateView,
    path: Seq<char>,
    tolerance: u32,
) -> bool {
    &&& 0 <= a < v.len()
    &&& 0 <= b < v.len()
    &&& v[a].digest.path == group.kept
    &&& v[a].digest.hash == group.hash
    &&& v[b].digest.path == path
    &&& stands_for(v[a], v[b], tolerance)
}

/// Whether a path that a group lists is that of a file in whose place another of
/// the files given is kept.
pub open spec fn lists_a_resave(
    v: Seq<EditionView>,
    group: DuplicateView,
    path: Seq<char>,
    tolerance: u32,
) -> bool {
    exists|a: int, b: int| #[trigger] is_listed_for(v, a, b, group, path, tolerance)
}

proof fn lemma_titled(v: Seq<EditionView>, keys: Seq<Seq<char>>, key: Seq<char>, k: int)
    requires
        v.len() == keys.len(),
        0 <= k < titled(v, keys, key).len(),
    ensures
        exists|i: int|
            0 <= i < v.len() && #[trigger] v[i] == titled(v, keys, key)[k] && keys[i] == key,
    decreases v.len(),
{
    let front = v.drop_last();
    let before = titled(front, keys.drop_last(), key);
    if k < before.len() {
        lemma_titled(front, keys.drop_last(), key, k);
        let i = choose|i: int|
            0 <= i < front.len() && #[trigger] front[i] == before[k] && keys.drop_last()[i] == key;
        assert(v[i] == front[i]);
    } else {
        assert(v[v.len() - 1] == v.last());
    }
}

proof fn lemma_by_size(v: Seq<EditionView>, keys: Seq<Seq<char>>, key: Seq<char>, e: EditionView)
    requires
        v.len() == keys.len(),
        by_size(v, keys, key).contains(e),
    ensures
        exists|i: int| 0 <= i < v.len() && #[trigger] v[i] == e && keys[i] == key,
{
    let group = titled(v, keys, key);
    order::sorting_keeps_every_item(group, size_keys(group), e);
    let k = choose|k: int| 0 <= k < group.len() && group[k] == e;
    lemma_titled(v, keys, key, k);
}

/// What stands in a group is what was found among files of one title.
proof fn lemma_group_members(line: Seq<EditionView>, tolerance: u32, g: int, o: int)
    requires
        largest_first(line),
        0 <= g < resave_groups(line, tolerance).len(),
        0 <= o < resave_groups(line, tolerance)[g].others.len(),
    ensures
        exists|a: EditionView, b: EditionView| #[trigger]
            line.contains(a) && #[trigger] line.contains(b) && a.digest.path == resave_groups(
                line,
                tolerance,
            )[g].kept && a.digest.hash == resave_groups(line, tolerance)[g].hash && b.digest.path
                == resave_groups(line, tolerance)[g].others[o] && is_resave(a, b, tolerance)
                && a.bytes >= b.bytes,
    decreases line.len(),
{
    lemma_parted(line[0], line.skip(1), tolerance);
    let rest = line.skip(1);
    let winner = line[0];
    let copies = resaves(winner, rest, tolerance);
    let left = different(winner, rest, tolerance);
    let groups = resave_groups(line, tolerance);
    let inner = resave_groups(left, tolerance);
    let shift = groups.len() - inner.len();
    assert(shift == 0 || shift == 1);
    assert(line.contains(winner));
    if shift == 1 && g == 0 {
        let e = copies[o];
        assert(copies.contains(e));
        lemma_resaves(winner, rest, tolerance, e);
        let i = choose|i: int| 0 <= i < rest.len() && rest[i] == e;
        assert(line[i + 1] == e);
        assert(line.contains(e));
        assert(line[0].bytes >= line[i + 1].bytes);
        assert(groups[0].others[o] == e.digest.path);
    } else {
        assert(groups[g] == inner[g - shift]);
        assert(largest_first(rest)) by {
            assert forall|a: int, b: int| 0 <= a < b < rest.len() implies (#[trigger] rest[a]).bytes
                >= (#[trigger] rest[b]).bytes by {
                assert(rest[a] == line[a + 1] && rest[b] == line[b + 1]);
            }
        }
        lemma_different_sorted(winner, rest, tolerance);
        lemma_group_members(left, tolerance, g - shift, o);
        let (a, b) = choose|a: EditionView, b: EditionView| #[trigger]
            left.contains(a) && #[trigger] left.contains(b) && a.digest.path == inner[g
                - shift].kept && a.digest.hash == inner[g - shift].hash && b.digest.path == inner[g
                - shift].others[o] && is_resave(a, b, tolerance) && a.bytes >= b.bytes;
        lemma_resaves(winner, rest, tolerance, a);
        lemma_resaves(winner, rest, tolerance, b);
        let i = choose|i: int| 0 <= i < rest.len() && rest[i] == a;
        let j = choose|j: int| 0 <= j < rest.len() && rest[j] == b;
        assert(line[i + 1] == a && line[j + 1] == b);
        assert(line.contains(a) && line.contains(b));
    }
}

proof fn lemma_all_group_members(v: Seq<EditionView>, tolerance: u32, n: int, g: int, o: int)
    requires
        0 <= n <= v.len(),
        0 <= g < all_resaves(v, work_keys(v), tolerance, n).len(),
        0 <= o < all_resaves(v, work_keys(v), tolerance, n)[g].others.len(),
    ensures
        exists|a: int, b: int| #[trigger]
            is_listed_for(
                v,
                a,
                b,
                all_resaves(v, work_keys(v), tolerance, n)[g],
                all_resaves(v, work_keys(v), tolerance, n)[g].others[o],
                tolerance,
            ),
    decreases n,
{
    let keys = work_keys(v);
    let before = all_resaves(v, keys, tolerance, n - 1);
    let all = all_resaves(v, keys, tolerance, n);
    if g < before.len() {
        assert(all[g] == before[g]);
        lemma_all_group_members(v, tolerance, n - 1, g, o);
    } else {
        let key = keys[n - 1];
        let line = by_size(v, keys, key);
        let groups = resave_groups(line, tolerance);
        let h = g - before.len();
        assert(all[g] == groups[h]);
        titles_are_judged_largest_first(v, keys, key);
        lemma_group_members(line, tolerance, h, o);
        let (x, y) = choose|a: EditionView, b: EditionView| #[trigger]
            line.contains(a) && #[trigger] line.contains(b) && a.digest.path == groups[h].kept
                && a.digest.hash == groups[h].hash && b.digest.path == groups[h].others[o]
                && is_resave(a, b, tolerance) && a.bytes >= b.bytes;
        lemma_by_size(v, keys, key, x);
        lemma_by_size(v, keys, key, y);
        let a = choose|i: int| 0 <= i < v.len() && #[trigger] v[i] == x && keys[i] == key;
        let b = choose|i: int| 0 <= i < v.len() && #[trigger] v[i] == y && keys[i] == key;
        assert(stands_for(v[a], v[b], tolerance));
        assert(is_listed_for(v, a, b, all[g], all[g].others[o], tolerance));
    }
}

/// A file is folded only into a re-save of the same work: for every path that a
/// group lists, there are the file of that path and the one that is kept, with
/// one title key, the same number of pages and sizes that differ by no more than
/// the tolerance allows.
pub proof fn copies_are_folded_into_resaves(v: Seq<EditionView>, tolerance: u32, g: int, o: int)
    requires
        0 <= g < folded_groups(v, work_keys(v), tolerance).len(),
        0 <= o < folded_groups(v, work_keys(v), tolerance)[g].others.len(),
    ensures
        lists_a_resave(
            v,
            folded_groups(v, work_keys(v), tolerance)[g],
            folded_groups(v, work_keys(v), tolerance)[g].others[o],
            tolerance,
        ),
{
    let groups = all_resaves(v, work_keys(v), tolerance, v.len() as int);
    let sorted = folded_groups(v, work_keys(v), tolerance);
    order::sorting_keeps_every_item(groups, scan::path_keys(scan::kept_paths(groups)), sorted[g]);
    assert(sorted.contains(sorted[g]));
    let h = choose|h: int| 0 <= h < groups.len() && groups[h] == sorted[g];
    lemma_all_group_members(v, tolerance, v.len() as int, h, o);
}

/// No two of the files that are kept for one title are re-saves of each other.
proof fn lemma_works_differ(line: Seq<EditionView>, tolerance: u32, i: int, j: int)
    requires
        largest_first(line),
        0 <= i < j < works(line, tolerance).len(),
    ensures
        !is_resave(works(line, tolerance)[i], works(line, tolerance)[j], tolerance),
        works(line, tolerance)[i].bytes >= works(line, tolerance)[j].bytes,
    decreases line.len(),
{
    lemma_parted(line[0], line.skip(1), tolerance);
    let rest = line.skip(1);
    let left = different(line[0], rest, tolerance);
    let inner = works(left, tolerance);
    let all = works(line, tolerance);
    assert(all == seq![line[0]] + inner);
    assert(largest_first(rest)) by {
        assert forall|a: int, b: int| 0 <= a < b < rest.len() implies (#[trigger] rest[a]).bytes
            >= (#[trigger] rest[b]).bytes by {
            assert(rest[a] == line[a + 1] && rest[b] == line[b + 1]);
        }
    }
    lemma_different_sorted(line[0], rest, tolerance);
    assert(all[j] == inner[j - 1]);
    if i == 0 {
        let e = inner[j - 1];
        lemma_works_among(left, tolerance, j - 1);
        lemma_resaves(line[0], rest, tolerance, e);
        let k = choose|k: int| 0 <= k < rest.len() && rest[k] == e;
        assert(line[k + 1] == e);
        assert(line[0].bytes >= line[k + 1].bytes);
    } else {
        assert(all[i] == inner[i - 1]);
        lemma_works_differ(left, tolerance, i - 1, j - 1);
    }
}

proof fn lemma_works_among(line: Seq<EditionView>, tolerance: u32, i: int)
    requires
        0 <= i < works(line, tolerance).len(),
    ensures
        line.contains(works(line, tolerance)[i]),
    decreases line.len(),
{
    lemma_parted(line[0], line.skip(1), tolerance);
    let rest = line.skip(1);
    let left = different(line[0], rest, tolerance);
    let all = works(line, tolerance);
    assert(all == seq![line[0]] + works(left, tolerance));
    if i == 0 {
        assert(line.contains(line[0]));
    } else {
        lemma_works_among(left, tolerance, i - 1);
        lemma_resaves(line[0], rest, tolerance, all[i]);
        let k = choose|k: int| 0 <= k < rest.len() && rest[k] == all[i];
        assert(line[k + 1] == all[i]);
    }
}

/// Every work that is kept is one for its own title.
proof fn lemma_all_works(v: Seq<EditionView>, tolerance: u32, n: int, e: EditionView)
    requires
        0 <= n <= v.len(),
        all_works(v, work_keys(v), tolerance, n).contains(e),
    ensures
        works(by_size(v, work_keys(v), work_key(e.digest.title)), tolerance).contains(e),
    decreases n,
{
    let keys = work_keys(v);
    let all = all_works(v, keys, tolerance, n);
    let before = all_works(v, keys, tolerance, n - 1);
    let k = choose|k: int| 0 <= k < all.len() && all[k] == e;
    if k < before.len() {
        assert(before[k] == e);
        lemma_all_works(v, tolerance, n - 1, e);
    } else {
        let line = by_size(v, keys, keys[n - 1]);
        assert(works(line, tolerance)[k - before.len()] == e);
        lemma_works_among(line, tolerance, k - before.len());
        lemma_by_size(v, keys, keys[n - 1], e);
    }
}

/// Whether no two files have one path.
pub open spec fn paths_differ(v: Seq<EditionView>) -> bool {
    forall|i: int, j: int|
        0 <= i < j < v.len() ==> (#[trigger] v[i]).digest.path != (#[trigger] v[j]).digest.path
}

/// Of two files of one work with the same number of pages and sizes close enough,
/// at most one is kept.
pub proof fn resaves_are_not_both_kept(v: Seq<EditionView>, tolerance: u32, a: int, b: int)
    requires
        paths_differ(v),
        0 <= a < v.len(),
        0 <= b < v.len(),
        a != b,
        stands_for(v[a], v[b], tolerance),
    ensures
        !folded_digests(v, work_keys(v), tolerance).contains(v[a].digest) || !folded_digests(
            v,
            work_keys(v),
            tolerance,
        ).contains(v[b].digest),
{
    let keys = work_keys(v);
    let digests = folded_digests(v, keys, tolerance);
    if digests.contains(v[a].digest) && digests.contains(v[b].digest) {
        let line = by_size(v, keys, work_key(v[a].digest.title));
        titles_are_judged_largest_first(v, keys, work_key(v[a].digest.title));
        let kept = works(line, tolerance);
        lemma_kept_work(v, tolerance, a);
        lemma_kept_work(v, tolerance, b);
        let i = choose|i: int| 0 <= i < kept.len() && kept[i] == v[a];
        let j = choose|j: int| 0 <= j < kept.len() && kept[j] == v[b];
        if i < j {
            lemma_works_differ(line, tolerance, i, j);
        } else if j < i {
            lemma_works_differ(line, tolerance, j, i);
        } else {
            assert(v[a].digest.path == v[b].digest.path);
        }
    }
}

proof fn lemma_kept_work(v: Seq<EditionView>, tolerance: u32, a: int)
    requires
        paths_differ(v),
        0 <= a < v.len(),
        folded_digests(v, work_keys(v), tolerance).contains(v[a].digest),
    ensures
        works(by_size(v, work_keys(v), work_key(v[a].digest.title)), tolerance).contains(v[a]),
{
    let keys = work_keys(v);
    let kept = all_works(v, keys, tolerance, v.len() as int);
    let plain = edition_digests(kept);
    order::sorting_keeps_every_item(plain, scan::path_keys(edition_paths(kept)), v[a].digest);
    let k = choose|k: int| 0 <= k < plain.len() && plain[k] == v[a].digest;
    let e = kept[k];
    assert(kept.contains(e));
    lemma_all_works(v, tolerance, v.len() as int, e);
    let key = work_key(e.digest.title);
    let line = by_size(v, keys, key);
    let w = choose|w: int| 0 <= w < works(line, tolerance).len() && works(line, tolerance)[w] == e;
    lemma_works_among(line, tolerance, w);
    lemma_by_size(v, keys, key, e);
    let i = choose|i: int| 0 <= i < v.len() && #[trigger] v[i] == e && keys[i] == key;
    assert(v[i].digest.path == v[a].digest.path);
    assert(i == a);
}

/// Editions of a title that differ in their page counts are never put together:
/// what a group lists has as many pages as what it keeps.
pub proof fn other_printings_stay_apart(
    v: Seq<EditionView>,
    tolerance: u32,
    g: int,
    o: int,
    a: int,
    b: int,
)
    requires
        paths_differ(v),
        0 <= g < folded_groups(v, work_keys(v), tolerance).len(),
        0 <= o < folded_groups(v, work_keys(v), tolerance)[g].others.len(),
        0 <= a < v.len(),
        0 <= b < v.len(),
        v[a].pages != v[b].pages,
        folded_groups(v, work_keys(v), tolerance)[g].kept == v[a].digest.path,
    ensures
        folded_groups(v, work_keys(v), tolerance)[g].others[o] != v[b].digest.path,
{
    let group = folded_groups(v, work_keys(v), tolerance)[g];
    copies_are_folded_into_resaves(v, tolerance, g, o);
    let (x, y) = choose|x: int, y: int| #[trigger]
        is_listed_for(v, x, y, group, group.others[o], tolerance);
    assert(v[x].digest.path == v[a].digest.path);
    assert(x == a);
    if group.others[o] == v[b].digest.path {
        assert(v[y].digest.path == v[b].digest.path);
        assert(y == b);
    }
}

// ---------------------------------------------------------------------------
// Filing
// ---------------------------------------------------------------------------

/// A filing as text and number: folder, confidence and reason.
pub open spec fn filing_view(f: (String, u32, String)) -> (Seq<char>, u32, Seq<char>) {
    (f.0@, f.1, f.2@)
}

pub open spec fn filing_views(v: Seq<(String, u32, String)>) -> Seq<(Seq<char>, u32, Seq<char>)> {
    Seq::new(v.len(), |i: int| filing_view(v[i]))
}

/// What becomes of a backend's choice. One it is not sure enough of, and one it
/// failed to make, land among the unsorted rather than dropping the document.
pub open spec fn settled(outcome: Result<FilingView, Seq<char>>, min_confidence: u32) -> (
    Seq<char>,
    u32,
    Seq<char>,
) {
    match outcome {
        Ok(filing) => if float::at_least(filing.confidence, min_confidence) {
            (filing.folder, filing.confidence, filing.reason)
        } else {
            (
                UNSORTED@,
                filing.confidence,
                "low confidence for "@ + text::quoted_text(filing.folder) + ": "@ + filing.reason,
            )
        },
        Err(why) => (UNSORTED@, 0u32, "filing failed: "@ + why),
    }
}

pub fn settle_filing(outcome: Result<Filing, String>, min_confidence: u32) -> (r: (
    String,
    u32,
    String,
))
    ensures
        filing_view(r) == settled(brain::filing_reply(outcome), min_confidence),
        match outcome {
            Ok(filing) => if float::at_least(filing.confidence, min_confidence) {
                r == (filing.folder, filing.confidence, filing.reason)
            } else {
                r.0@ == "_Unsorted"@ && r.1 == filing.confidence
            },
            Err(_) => r.0@ == "_Unsorted"@ && r.1 == 0,
        },
{
    match outcome {
        Ok(filing) => if reaches(filing.confidence, min_confidence) {
            (filing.folder, filing.confidence, filing.reason)
        } else {
            let mut reason = own("low confidence for ");
            reason.append(quoted(filing.folder.as_str()).as_str());
            reason.append(": ");
            reason.append(filing.reason.as_str());
            (own(UNSORTED), filing.confidence, reason)
        },
        Err(why) => {
            let mut reason = own("filing failed: ");
            reason.append(why.as_str());
            (own(UNSORTED), 0, reason)
        },
    }
}

/// What becomes of a backend's choices, document by document.
pub open spec fn all_settled(
    outcomes: Seq<Result<FilingView, Seq<char>>>,
    min_confidence: u32,
) -> Seq<(Seq<char>, u32, Seq<char>)> {
    Seq::new(outcomes.len(), |i: int| settled(outcomes[i], min_confidence))
}

/// Whether a backend that went through these states made these choices, asked
/// about one document after the other.
pub open spec fn were_asked<B: Brain>(
    states: Seq<B>,
    outcomes: Seq<Result<FilingView, Seq<char>>>,
    digests: Seq<DigestView>,
    taxonomy: Taxonomy,
) -> bool {
    &&& states.len() == digests.len() + 1
    &&& outcomes.len() == digests.len()
    &&& forall|i: int|
        0 <= i < digests.len() ==> B::files(
            states[i],
            digests[i],
            taxonomy,
            states[i + 1],
            #[trigger] outcomes[i],
        )
}

/// Whether filings are what becomes of a backend's choices for some documents.
pub open spec fn are_filed<B: Brain>(
    first: B,
    last: B,
    digests: Seq<DigestView>,
    taxonomy: Taxonomy,
    min_confidence: u32,
    filings: Seq<(Seq<char>, u32, Seq<char>)>,
) -> bool {
    exists|states: Seq<B>, outcomes: Seq<Result<FilingView, Seq<char>>>| #[trigger]
        were_asked(states, outcomes, digests, taxonomy) && states[0] == first && states.last()
            == last && filings == all_settled(outcomes, min_confidence)
}

/// Ask the brain where each document belongs. Failures land in `_Unsorted`
/// rather than dropping the document.
pub fn file_all<B: Brain>(
    brain: &mut B,
    taxonomy: &Taxonomy,
    digests: &Vec<Digest>,
    min_confidence: u32,
) -> (r: Vec<(String, u32, String)>)
    ensures
        r@.len() == digests@.len(),
        are_filed(
            *old(brain),
            *final(brain),
            types::digest_views(digests@),
            *taxonomy,
            min_confidence,
            filing_views(r@),
        ),
{
    let ghost all = types::digest_views(digests@);
    let ghost mut states: Seq<B> = seq![*brain];
    let ghost mut outcomes: Seq<Result<FilingView, Seq<char>>> = seq![];
    let mut out: Vec<(String, u32, String)> = Vec::new();
    let mut i: usize = 0;
    assert(all.take(0) =~= seq![]);
    assert(filing_views(out@) =~= all_settled(outcomes, min_confidence));
    while i < digests.len()
        invariant
            all == types::digest_views(digests@),
            i <= digests@.len(),
            out@.len() == i,
            were_asked(states, outcomes, all.take(i as int), *taxonomy),
            states[0] == *old(brain),
            states.last() == *brain,
            filing_views(out@) == all_settled(outcomes, min_confidence),
        decreases digests@.len() - i,
    {
        let ghost asked = outcomes;
        let ghost gone = states;
        let outcome = brain.file(&digests[i], taxonomy);
        let ghost said = brain::filing_reply(outcome);
        proof {
            outcomes = asked.push(said);
            states = gone.push(*brain);
            let part = all.take(i + 1);
            assert forall|j: int| 0 <= j < part.len() implies B::files(
                states[j],
                part[j],
                *taxonomy,
                states[j + 1],
                #[trigger] outcomes[j],
            ) by {
                if j < i {
                    assert(outcomes[j] == asked[j]);
                    assert(part[j] == all.take(i as int)[j]);
                    assert(states[j] == gone[j] && states[j + 1] == gone[j + 1]);
                } else {
                    assert(states[j] == gone.last());
                }
            }
        }
        let filing = settle_filing(outcome, min_confidence);
        let ghost before = filing_views(out@);
        out.push(filing);
        proof {
            assert(filing_views(out@) =~= before.push(filing_view(filing)));
            assert(all_settled(outcomes, min_confidence) =~= all_settled(asked, min_confidence).push(
                settled(said, min_confidence),
            ));
        }
        i = i + 1;
    }
    assert(all.take(i as int) =~= all);
    assert(were_asked(states, outcomes, all, *taxonomy));
    out
}

/// How many documents are filed into a folder.
pub open spec fn filed_into(
    filings: Seq<(Seq<char>, u32, Seq<char>)>,
    folder: Seq<char>,
) -> nat
    decreases filings.len(),
{
    if filings.len() == 0 {
        0
    } else {
        filed_into(filings.drop_last(), folder) + (if filings.last().0 == folder {
            1nat
        } else {
            0nat
        })
    }
}

/// A folder without its last segment, if it has more than one.
pub open spec fn parent_folder(folder: Seq<char>) -> Option<Seq<char>>
    decreases folder.len(),
{
    if folder.len() == 0 {
        None
    } else if folder.last() == '/' {
        Some(folder.drop_last())
    } else {
        parent_folder(folder.drop_last())
    }
}

/// Whether a folder folds into its parent: it has one, it holds too few
/// documents, and it is not the unsorted bucket, which always stays put.
pub open spec fn folds(
    filings: Seq<(Seq<char>, u32, Seq<char>)>,
    folder: Seq<char>,
    min_docs: usize,
) -> bool {
    &&& filed_into(filings, folder) < min_docs
    &&& folder != UNSORTED@
    &&& parent_folder(folder) is Some
}

/// A filing once thin folders are folded up.
pub open spec fn folded_filing(
    filings: Seq<(Seq<char>, u32, Seq<char>)>,
    min_docs: usize,
    i: int,
) -> (Seq<char>, u32, Seq<char>) {
    let (folder, confidence, reason) = filings[i];
    if folds(filings, folder, min_docs) {
        (
            parent_folder(folder)->0,
            confidence,
            reason + "; folded up from thin folder "@ + text::quoted_text(folder),
        )
    } else {
        (folder, confidence, reason)
    }
}

pub open spec fn folded_filings(
    filings: Seq<(Seq<char>, u32, Seq<char>)>,
    min_docs: usize,
) -> Seq<(Seq<char>, u32, Seq<char>)> {
    Seq::new(filings.len(), |i: int| folded_filing(filings, min_docs, i))
}

/// Whether any folder is folded up at all.
pub open spec fn any_folds(filings: Seq<(Seq<char>, u32, Seq<char>)>, min_docs: usize) -> bool {
    min_docs > 1 && exists|i: int|
        0 <= i < filings.len() && folds(filings, (#[trigger] filings[i]).0, min_docs)
}

fn parent_of_folder(folder: &str) -> (r: Option<String>)
    ensures
        text::opt_text(r) == parent_folder(folder@),
{
    let cs = chars_of(folder);
    let mut n: usize = cs.len();
    assert(cs@.take(n as int) =~= cs@);
    while n > 0
        invariant
            cs@ == folder@,
            n <= cs@.len(),
            parent_folder(folder@) == parent_folder(cs@.take(n as int)),
        decreases n,
    {
        let ghost part = cs@.take(n as int);
        assert(part.drop_last() =~= cs@.take(n - 1));
        if cs[n - 1] == '/' {
            let head = copy_range(cs.as_slice(), 0, n - 1);
            assert(head@ =~= cs@.take(n - 1));
            return Some(text_of(head.as_slice()));
        }
        n = n - 1;
    }
    None
}

fn count_filed(filings: &Vec<(String, u32, String)>, folder: &str) -> (r: usize)
    ensures
        r == filed_into(filing_views(filings@), folder@),
{
    let ghost all = filing_views(filings@);
    let mut n: usize = 0;
    let mut i: usize = 0;
    assert(all.take(0) =~= Seq::<(Seq<char>, u32, Seq<char>)>::empty());
    while i < filings.len()
        invariant
            all == filing_views(filings@),
            i <= filings@.len(),
            n <= i,
            n == filed_into(all.take(i as int), folder@),
        decreases filings@.len() - i,
    {
        assert(all.take(i + 1).drop_last() =~= all.take(i as int));
        assert(all.take(i + 1).last() == filing_view(filings@[i as int]));
        if same(filings[i].0.as_str(), folder) {
            n = n + 1;
        }
        i = i + 1;
    }
    assert(all.take(i as int) =~= all);
    n
}

/// The folders of some filings.
pub open spec fn folders_of(filings: Seq<(Seq<char>, u32, Seq<char>)>) -> Seq<Seq<char>> {
    Seq::new(filings.len(), |i: int| filings[i].0)
}

/// Collapse leaves that ended up with too few documents into their parent, so
/// the library does not sprout single-file folders.
pub fn fold_thin_leaves(
    taxonomy: Taxonomy,
    filings: Vec<(String, u32, String)>,
    min_docs: usize,
) -> (r: (Taxonomy, Vec<(String, u32, String)>))
    ensures
        !any_folds(filing_views(filings@), min_docs) ==> r.0 == taxonomy && r.1@ == filings@,
        any_folds(filing_views(filings@), min_docs) ==> {
            &&& filing_views(r.1@) == folded_filings(filing_views(filings@), min_docs)
            &&& order::ascending(r.0.leaf_list())
            &&& forall|x: Seq<char>| #[trigger]
                r.0.leaf_list().contains(x) <==> folders_of(filing_views(r.1@)).contains(x)
            &&& r.0.notes == taxonomy.notes
        },
        r.1@.len() == filings@.len(),
        forall|i: int|
            0 <= i < filings@.len() ==> is_folded_folder(
                filing_views(filings@),
                min_docs,
                filings@[i].0@,
                (#[trigger] r.1@[i]).0@,
            ),
{
    let ghost all = filing_views(filings@);
    proof {
        assert forall|i: int| 0 <= i < all.len() implies is_folded_folder(
            all,
            min_docs,
            all[i].0,
            #[trigger] thinned(all, min_docs)[i].0,
        ) by {
            thin_folders_fold_and_others_stay(all, min_docs, i);
        }
    }
    if min_docs <= 1 {
        assert forall|i: int| 0 <= i < filings@.len() implies is_folded_folder(
            all,
            min_docs,
            filings@[i].0@,
            (#[trigger] filings@[i]).0@,
        ) by {
            assert(thinned(all, min_docs)[i].0 == all[i].0);
        }
        return (taxonomy, filings);
    }
    let mut out: Vec<(String, u32, String)> = Vec::new();
    let mut leaves: Vec<String> = Vec::new();
    let mut any = false;
    let mut i: usize = 0;
    assert(text::texts(leaves@) =~= Seq::<Seq<char>>::empty());
    while i < filings.len()
        invariant
            min_docs > 1,
            all == filing_views(filings@),
            i <= filings@.len(),
            filing_views(out@) =~= folded_filings(all, min_docs).take(i as int),
            any == (exists|j: int| 0 <= j < i && folds(all, (#[trigger] all[j]).0, min_docs)),
            order::ascending(text::texts(leaves@)),
            forall|x: Seq<char>| #[trigger]
                text::texts(leaves@).contains(x) <==> folders_of(filing_views(out@)).contains(x),
        decreases filings@.len() - i,
    {
        let f = &filings[i];
        let ghost was = any;
        let ghost before = out@;
        let ghost old_folders = folders_of(filing_views(out@));
        assert(all[i as int] == filing_view(*f));
        let thin = count_filed(&filings, f.0.as_str()) < min_docs && !same(
            f.0.as_str(),
            UNSORTED,
        );
        let parent = parent_of_folder(f.0.as_str());
        let next = match parent {
            Some(p) => if thin {
                let mut reason = f.2.clone();
                reason.append("; folded up from thin folder ");
                reason.append(quoted(f.0.as_str()).as_str());
                any = true;
                (p, f.1, reason)
            } else {
                (f.0.clone(), f.1, f.2.clone())
            },
            None => (f.0.clone(), f.1, f.2.clone()),
        };
        assert(filing_view(next) == folded_filing(all, min_docs, i as int));
        insert_ascending(&mut leaves, next.0.clone());
        let ghost folder = next.0@;
        out.push(next);
        proof {
            assert(filing_views(out@) =~= filing_views(before).push(filing_view(next)));
            if was {
                let j = choose|j: int| 0 <= j < i && folds(all, (#[trigger] all[j]).0, min_docs);
                assert(folds(all, all[j].0, min_docs));
            }
            assert(folders_of(filing_views(out@)) =~= old_folders.push(folder));
            assert forall|x: Seq<char>| #[trigger] text::texts(leaves@).contains(x) <==> folders_of(
                filing_views(out@),
            ).contains(x) by {
                lemma_push_contains(old_folders, folder, x);
            }
        }
        i = i + 1;
    }
    assert(folded_filings(all, min_docs).take(i as int) =~= folded_filings(all, min_docs));
    if !any {
        assert forall|i: int| 0 <= i < filings@.len() implies is_folded_folder(
            all,
            min_docs,
            filings@[i].0@,
            (#[trigger] filings@[i]).0@,
        ) by {
            assert(thinned(all, min_docs)[i].0 == all[i].0);
        }
        return (taxonomy, filings);
    }
    proof {
        assert(filing_views(out@) == thinned(all, min_docs));
        assert forall|i: int| 0 <= i < filings@.len() implies is_folded_folder(
            all,
            min_docs,
            filings@[i].0@,
            (#[trigger] out@[i]).0@,
        ) by {
            assert(thinned(all, min_docs)[i].0 == filing_views(out@)[i].0);
            assert(all[i].0 == filings@[i].0@);
        }
    }
    (Taxonomy { leaves, notes: taxonomy.notes }, out)
}

/// The documents that are filed into a folder, by their positions.
pub open spec fn filed_there(
    filings: Seq<(Seq<char>, u32, Seq<char>)>,
    folder: Seq<char>,
) -> Set<int> {
    Set::new(|i: int| 0 <= i < filings.len() && filings[i].0 == folder)
}

proof fn lemma_filed_there(filings: Seq<(Seq<char>, u32, Seq<char>)>, folder: Seq<char>)
    ensures
        filed_there(filings, folder).finite(),
        filed_there(filings, folder).len() == filed_into(filings, folder),
    decreases filings.len(),
{
    let all = filed_there(filings, folder);
    if filings.len() == 0 {
        assert(all =~= Set::empty());
    } else {
        let front = filings.drop_last();
        let n = filings.len() - 1;
        lemma_filed_there(front, folder);
        if filings.last().0 == folder {
            assert(all =~= filed_there(front, folder).insert(n));
        } else {
            assert(all =~= filed_there(front, folder));
        }
    }
}

/// Whether one folder is the one right above another.
pub open spec fn is_right_above(parent: Seq<char>, folder: Seq<char>) -> bool {
    exists|rest: Seq<char>|
        folder == parent + seq!['/'] + rest && !(#[trigger] rest.contains('/'))
}

/// What becomes of a document's folder when thin folders are folded up: where fewer
/// than `min_docs` documents are filed into it, it is the folder right above, but
/// for a folder at the top and the unsorted bucket; else it stays.
pub open spec fn is_folded_folder(
    filings: Seq<(Seq<char>, u32, Seq<char>)>,
    min_docs: usize,
    folder: Seq<char>,
    now: Seq<char>,
) -> bool {
    if min_docs > 1 && filed_there(filings, folder).len() < min_docs && folder.contains('/')
        && folder != UNSORTED@ {
        is_right_above(now, folder)
    } else {
        now == folder
    }
}

/// A document in a thin folder is moved to the folder above it, and one in a folder
/// with documents enough stays where it was.
pub proof fn thin_folders_fold_and_others_stay(
    filings: Seq<(Seq<char>, u32, Seq<char>)>,
    min_docs: usize,
    i: int,
)
    requires
        0 <= i < filings.len(),
    ensures
        thinned(filings, min_docs).len() == filings.len(),
        is_folded_folder(filings, min_docs, filings[i].0, thinned(filings, min_docs)[i].0),
        thinned(filings, min_docs)[i].1 == filings[i].1,
        thinned(filings, min_docs)[i].0 == filings[i].0 ==> thinned(filings, min_docs)[i]
            == filings[i],
{
    let folder = filings[i].0;
    lemma_filed_there(filings, folder);
    if !folder.contains('/') {
        lemma_no_parent(folder);
    } else {
        lemma_has_parent(folder);
    }
    if min_docs > 1 && folds(filings, folder, min_docs) {
        lemma_parent(folder);
        assert(any_folds(filings, min_docs));
        let up = parent_folder(folder)->0;
        let rest = choose|rest: Seq<char>|
            folder == up + seq!['/'] + rest && !(#[trigger] rest.contains('/'));
        assert(folder.len() == up.len() + 1 + rest.len());
    }
}

proof fn lemma_has_parent(folder: Seq<char>)
    requires
        folder.contains('/'),
    ensures
        parent_folder(folder) is Some,
    decreases folder.len(),
{
    if folder.last() != '/' {
        let k = choose|k: int| 0 <= k < folder.len() && folder[k] == '/';
        assert(folder.drop_last()[k] == '/');
        lemma_has_parent(folder.drop_last());
    }
}

/// The unsorted bucket never folds away, and neither does a folder at the top
/// level, which has no parent.
pub proof fn some_folders_never_fold(
    filings: Seq<(Seq<char>, u32, Seq<char>)>,
    min_docs: usize,
    i: int,
)
    requires
        0 <= i < filings.len(),
        filings[i].0 == UNSORTED@ || !filings[i].0.contains('/'),
    ensures
        folded_filings(filings, min_docs)[i] == filings[i],
{
    if !filings[i].0.contains('/') {
        lemma_no_parent(filings[i].0);
    }
}

proof fn lemma_no_parent(folder: Seq<char>)
    requires
        !folder.contains('/'),
    ensures
        parent_folder(folder) is None,
    decreases folder.len(),
{
    if folder.len() > 0 {
        assert(folder.contains(folder.last()));
        let part = folder.drop_last();
        if part.contains('/') {
            let k = choose|k: int| 0 <= k < part.len() && part[k] == '/';
            assert(folder[k] == '/');
        }
        lemma_no_parent(part);
    }
}

/// Folding moves a document no further than into the folder above.
pub proof fn folding_moves_one_level_up(
    filings: Seq<(Seq<char>, u32, Seq<char>)>,
    min_docs: usize,
    i: int,
)
    requires
        0 <= i < filings.len(),
    ensures
        folded_filings(filings, min_docs)[i].1 == filings[i].1,
        folded_filings(filings, min_docs)[i].0 == filings[i].0 || exists|rest: Seq<char>|
            filings[i].0 == folded_filings(filings, min_docs)[i].0 + seq!['/'] + rest
                && !(#[trigger] rest.contains('/')),
{
    let folder = filings[i].0;
    if folds(filings, folder, min_docs) {
        lemma_parent(folder);
    }
}

proof fn lemma_parent(folder: Seq<char>)
    requires
        parent_folder(folder) is Some,
    ensures
        exists|rest: Seq<char>|
            folder == parent_folder(folder)->0 + seq!['/'] + rest && !(#[trigger] rest.contains(
                '/',
            )),
    decreases folder.len(),
{
    let top = parent_folder(folder)->0;
    if folder.last() == '/' {
        let rest = Seq::<char>::empty();
        assert(folder =~= top + seq!['/'] + rest);
        assert(!rest.contains('/'));
    } else {
        let part = folder.drop_last();
        lemma_parent(part);
        let rest = choose|rest: Seq<char>|
            part == top + seq!['/'] + rest && !(#[trigger] rest.contains('/'));
        let longer = rest.push(folder.last());
        assert(top == parent_folder(part)->0);
        assert(folder =~= part.push(folder.last()));
        assert(folder =~= top + seq!['/'] + longer);
        lemma_push_contains(rest, folder.last(), '/');
        assert(!longer.contains('/'));
    }
}

// ---------------------------------------------------------------------------
// Destinations
// ---------------------------------------------------------------------------

/// Where a document would go if the place were free.
pub open spec fn wanted_dest(d: DigestView, folder: Seq<char>) -> Seq<char> {
    paths::join(naming::folder(folder), naming::destination_name(d.title, d.path))
}

/// The documents that have both a digest and a filing.
pub open spec fn paired_len<A, B>(a: Seq<A>, b: Seq<B>) -> int {
    if a.len() < b.len() {
        a.len() as int
    } else {
        b.len() as int
    }
}

/// The destinations that were given, in order.
pub open spec fn given(dests: Seq<Option<Seq<char>>>) -> Seq<Seq<char>>
    decreases dests.len(),
{
    if dests.len() == 0 {
        seq![]
    } else {
        match dests.last() {
            Some(d) => given(dests.drop_last()).push(d),
            None => given(dests.drop_last()),
        }
    }
}

/// Whether a document has this destination when some are taken: the place it
/// wants, or the first variant of it that is free. It has none if its extension
/// is too long to keep, or if every variant is taken.
pub open spec fn is_destined(
    taken: Seq<Seq<char>>,
    d: DigestView,
    folder: Seq<char>,
    dest: Option<Seq<char>>,
) -> bool {
    let fits = naming::extension_serves(naming::kept_extension(d.path));
    match dest {
        Some(p) => fits && naming::is_claimed(taken, wanted_dest(d, folder), p),
        None => !fits || !naming::has_room(taken, wanted_dest(d, folder)),
    }
}

/// Whether documents have these destinations, one document after the other.
pub open spec fn are_destined(
    digests: Seq<DigestView>,
    filings: Seq<(Seq<char>, u32, Seq<char>)>,
    dests: Seq<Option<Seq<char>>>,
) -> bool {
    forall|i: int|
        0 <= i < dests.len() ==> is_destined(
            given(dests.take(i)),
            digests[i],
            filings[i].0,
            #[trigger] dests[i],
        )
}

/// The filing of a document at a destination.
pub open spec fn assigned(
    d: DigestView,
    filing: (Seq<char>, u32, Seq<char>),
    dest: Seq<char>,
) -> AssignmentView {
    AssignmentView {
        hash: d.hash,
        source: d.path,
        dest,
        leaf: filing.0,
        title: d.title,
        confidence: filing.1,
        reason: filing.2,
        digest: Some(d),
    }
}

/// The documents that have a destination.
pub open spec fn all_assigned(
    digests: Seq<DigestView>,
    filings: Seq<(Seq<char>, u32, Seq<char>)>,
    dests: Seq<Option<Seq<char>>>,
) -> Seq<AssignmentView>
    decreases dests.len(),
{
    if dests.len() == 0 {
        seq![]
    } else {
        let n = dests.len() - 1;
        let before = all_assigned(digests, filings, dests.drop_last());
        match dests.last() {
            Some(p) => before.push(assigned(digests[n], filings[n], p)),
            None => before,
        }
    }
}

pub const NO_NAME_LEFT: &'static str = "no free name is left for it in the library";

/// A document that cannot be given a destination.
pub open spec fn unnamed(path: Seq<char>) -> UnfiledView {
    UnfiledView { path, reason: NO_NAME_LEFT@ }
}

/// The documents that have no destination.
pub open spec fn all_unnamed(
    digests: Seq<DigestView>,
    dests: Seq<Option<Seq<char>>>,
) -> Seq<UnfiledView>
    decreases dests.len(),
{
    if dests.len() == 0 {
        seq![]
    } else {
        let n = dests.len() - 1;
        let before = all_unnamed(digests, dests.drop_last());
        match dests.last() {
            Some(_) => before,
            None => before.push(unnamed(digests[n].path)),
        }
    }
}

proof fn lemma_assigned(
    digests: Seq<DigestView>,
    filings: Seq<(Seq<char>, u32, Seq<char>)>,
    dests: Seq<Option<Seq<char>>>,
)
    ensures
        all_assigned(digests, filings, dests).len() == given(dests).len(),
        all_assigned(digests, filings, dests).len() + all_unnamed(digests, dests).len()
            == dests.len(),
        forall|i: int|
            0 <= i < given(dests).len() ==> (#[trigger] all_assigned(
                digests,
                filings,
                dests,
            )[i]).dest == given(dests)[i],
    decreases dests.len(),
{
    if dests.len() > 0 {
        lemma_assigned(digests, filings, dests.drop_last());
    }
}

/// Whether every document of a list goes into the folder that it is filed under.
pub open spec fn all_inside(v: Seq<AssignmentView>) -> bool {
    forall|i: int|
        0 <= i < v.len() ==> naming::lies_in((#[trigger] v[i]).dest, v[i].leaf)
}

/// Turn filings into concrete, collision-free destination paths, in path order.
/// A document that cannot be given one is listed instead.
pub fn to_assignments(digests: &Vec<Digest>, filings: &Vec<(String, u32, String)>) -> (r: (
    Vec<Assignment>,
    Vec<Unfiled>,
))
    ensures
        exists|dests: Seq<Option<Seq<char>>>| #[trigger]
            are_destined(types::digest_views(digests@), filing_views(filings@), dests)
                && dests.len() == paired_len(digests@, filings@) && types::assignment_views(r.0@)
                == order::arranged(
                all_assigned(types::digest_views(digests@), filing_views(filings@), dests),
                scan::path_keys(given(dests)),
            ) && unfiled_views(r.1@) == all_unnamed(types::digest_views(digests@), dests),
        r.0@.len() + r.1@.len() == paired_len(digests@, filings@),
        all_inside(types::assignment_views(r.0@)),
{
    let ghost all = types::digest_views(digests@);
    let ghost said = filing_views(filings@);
    let ghost mut dests: Seq<Option<Seq<char>>> = seq![];
    let mut taken: Vec<String> = Vec::new();
    let mut keys: Vec<Vec<i128>> = Vec::new();
    let mut out: Vec<Assignment> = Vec::new();
    let mut left: Vec<Unfiled> = Vec::new();
    let n: usize = if digests.len() < filings.len() {
        digests.len()
    } else {
        filings.len()
    };
    let mut i: usize = 0;
    assert(text::texts(taken@) =~= Seq::<Seq<char>>::empty());
    assert(unfiled_views(left@) =~= Seq::<UnfiledView>::empty());
    while i < n
        invariant
            all == types::digest_views(digests@),
            said == filing_views(filings@),
            n == paired_len(digests@, filings@),
            i <= n,
            dests.len() == i,
            are_destined(all, said, dests),
            text::texts(taken@) == given(dests),
            types::assignment_views(out@) =~= all_assigned(all, said, dests),
            unfiled_views(left@) == all_unnamed(all, dests),
            order::key_lists(keys@) =~= scan::path_keys(text::texts(taken@)),
            all_inside(types::assignment_views(out@)),
        decreases n - i,
    {
        let digest = &digests[i];
        let filing = &filings[i];
        let ghost before = text::texts(taken@);
        let ghost earlier = dests;
        assert(all[i as int] == digest@ && said[i as int] == filing_view(*filing));
        let dir = sanitize_folder(filing.0.as_str());
        let dest = match try_file_name(digest.title.as_str(), digest.path.as_str()) {
            Some(name) => {
                let wanted = join_paths(dir.as_str(), name.as_str());
                let dest = try_unique(&mut taken, wanted.as_str());
                proof {
                    if dest is Some {
                        naming::destinations_stay_inside_the_library(
                            before,
                            filing.0@,
                            name@,
                            dest->0@,
                        );
                    }
                }
                dest
            },
            None => None,
        };
        proof {
            dests = earlier.push(text::opt_text(dest));
            assert(dests.drop_last() =~= earlier);
            assert forall|j: int| 0 <= j < dests.len() implies is_destined(
                given(dests.take(j)),
                all[j],
                said[j].0,
                #[trigger] dests[j],
            ) by {
                assert(dests.take(j) =~= earlier.take(j));
                if j < i {
                    assert(dests[j] == earlier[j]);
                } else {
                    assert(earlier.take(j) =~= earlier);
                }
            }
        }
        match dest {
            Some(dest) => {
                let ghost done = out@;
                let ghost old_keys = keys@;
                let key = path_key_of(dest.as_str());
                keys.push(key);
                let item = Assignment {
                    hash: digest.hash.clone(),
                    source: digest.path.clone(),
                    dest,
                    leaf: filing.0.clone(),
                    title: digest.title.clone(),
                    confidence: filing.1,
                    reason: filing.2.clone(),
                    digest: Some(digest.clone()),
                };
                out.push(item);
                proof {
                    assert(text::texts(taken@) == before.push(dest@));
                    assert(item@ == assigned(digest@, filing_view(*filing), dest@));
                    assert(types::assignment_views(out@) =~= types::assignment_views(done).push(
                        item@,
                    ));
                    assert(order::key_lists(keys@) =~= order::key_lists(old_keys).push(key@));
                }
            },
            None => {
                let item = Unfiled { path: digest.path.clone(), reason: own(NO_NAME_LEFT) };
                let ghost done = left@;
                left.push(item);
                proof {
                    assert(text::texts(taken@) == before);
                    assert(item@ == unnamed(digest@.path));
                    assert(unfiled_views(left@) =~= unfiled_views(done).push(item@));
                }
            },
        }
        i = i + 1;
    }
    let ghost listed = types::assignment_views(out@);
    proof {
        lemma_assigned(all, said, dests);
        assert(text::texts(taken@).len() == taken@.len());
        assert(order::key_lists(keys@).len() == keys@.len());
        assert(listed.len() == out@.len());
        assert(unfiled_views(left@).len() == left@.len());
    }
    let sorted = sort_by_keys(out, &keys);
    proof {
        let sources = scan::path_keys(given(dests));
        assert(types::assignment_views(sorted@) =~= order::arranged(
            all_assigned(all, said, dests),
            sources,
        ));
        let views = types::assignment_views(sorted@);
        assert forall|i: int|
            0 <= i < views.len() implies naming::lies_in(
                (#[trigger] views[i]).dest,
                views[i].leaf,
            ) by {
            order::sorting_keeps_every_item(all_assigned(all, said, dests), sources, views[i]);
            assert(views.contains(views[i]));
            let j = choose|j: int| 0 <= j < listed.len() && listed[j] == views[i];
            assert(naming::lies_in(listed[j].dest, listed[j].leaf));
        }
    }
    (sorted, left)
}

/// No two documents are given one destination.
pub proof fn destinations_differ(
    digests: Seq<DigestView>,
    filings: Seq<(Seq<char>, u32, Seq<char>)>,
    dests: Seq<Option<Seq<char>>>,
    i: int,
    j: int,
)
    requires
        are_destined(digests, filings, dests),
        0 <= i < j < given(dests).len(),
    ensures
        !paths::same_path(given(dests)[i], given(dests)[j]),
    decreases dests.len(),
{
    let part = dests.drop_last();
    let last = dests.len() - 1;
    assert(dests.take(last) =~= part);
    assert(is_destined(given(part), digests[last], filings[last].0, dests[last]));
    assert(are_destined(digests, filings, part)) by {
        assert forall|k: int| 0 <= k < part.len() implies is_destined(
            given(part.take(k)),
            digests[k],
            filings[k].0,
            #[trigger] part[k],
        ) by {
            assert(part.take(k) =~= dests.take(k));
            assert(part[k] == dests[k]);
        }
    }
    if j < given(part).len() {
        destinations_differ(digests, filings, part, i, j);
    } else {
        let p = dests.last()->0;
        assert(naming::is_free(given(part), p));
        assert(given(dests)[j] == p && given(dests)[i] == given(part)[i]);
    }
}

// ---------------------------------------------------------------------------
// The plan
// ---------------------------------------------------------------------------

/// A digest whose system goes by its canonical name.
pub open spec fn spelled_digest(d: DigestView, overrides: Map<Seq<char>, Seq<char>>) -> DigestView {
    DigestView {
        game_system: systems::spelled(d.game_system, text::lowered(text::trim(d.game_system)), overrides),
        ..d
    }
}

pub open spec fn spelled_digests(
    v: Seq<DigestView>,
    overrides: Map<Seq<char>, Seq<char>>,
) -> Seq<DigestView> {
    Seq::new(v.len(), |i: int| spelled_digest(v[i], overrides))
}

/// Fold the names of systems to one spelling, so a backend that designs a tree
/// sees a clean list of the systems that are present.
pub fn spell_systems(digests: &Vec<Digest>, cfg: &SystemsConfig) -> (r: Vec<Digest>)
    ensures
        types::digest_views(r@) == spelled_digests(
            types::digest_views(digests@),
            systems::override_texts(cfg.aliases@),
        ),
{
    let ghost all = types::digest_views(digests@);
    let ghost overrides = systems::override_texts(cfg.aliases@);
    let mut out: Vec<Digest> = Vec::new();
    let mut i: usize = 0;
    while i < digests.len()
        invariant
            all == types::digest_views(digests@),
            overrides == systems::override_texts(cfg.aliases@),
            i <= digests@.len(),
            types::digest_views(out@) =~= spelled_digests(all, overrides).take(i as int),
        decreases digests@.len() - i,
    {
        let mut d = digests[i].clone();
        d.game_system = canonical(d.game_system.as_str(), &cfg.aliases);
        let ghost before = out@;
        out.push(d);
        proof {
            assert(all[i as int] == digests@[i as int]@);
            assert(d@ == spelled_digest(all[i as int], overrides));
            assert(types::digest_views(out@) =~= types::digest_views(before).push(d@));
        }
        i = i + 1;
    }
    assert(spelled_digests(all, overrides).take(i as int) =~= spelled_digests(all, overrides));
    out
}

pub const NOTHING_TO_PLAN: &'static str =
    "every document failed to produce a digest; nothing to plan";

/// Refuse to go on when nothing was found.
pub fn check_found(found: usize, source: &str) -> (r: Result<(), String>)
    ensures
        found > 0 ==> r is Ok,
        found == 0 ==> (r matches Err(why) && why@ == "no PDFs found under "@ + source@),
{
    if found == 0 {
        let mut why = own("no PDFs found under ");
        why.append(source);
        return Err(why);
    }
    Ok(())
}

/// The documents to plan for: all that were described, or one for each work.
pub open spec fn planned_digests(v: Seq<EditionView>, cfg: Config) -> Seq<DigestView> {
    let one_each = if cfg.dedupe.near_duplicates {
        folded_digests(v, work_keys(v), cfg.dedupe.size_tolerance)
    } else {
        edition_digests(v)
    };
    spelled_digests(one_each, systems::override_texts(cfg.systems.aliases@))
}

/// Where near duplicates are not looked for, every document is planned for, and the
/// copies are those found by fingerprint alone.
pub proof fn folding_can_be_left_out(
    exact: Seq<DuplicateView>,
    v: Seq<EditionView>,
    cfg: Config,
    i: int,
)
    requires
        !cfg.dedupe.near_duplicates,
        0 <= i < v.len(),
    ensures
        planned_duplicates(exact, v, cfg) == exact,
        planned_digests(v, cfg).len() == v.len(),
        planned_digests(v, cfg)[i] == (DigestView {
            game_system: planned_digests(v, cfg)[i].game_system,
            ..v[i].digest
        }),
{
}

/// Folding the names of systems to one spelling changes nothing else, and leaves the
/// documents in their order.
pub proof fn spelling_changes_systems_alone(
    v: Seq<DigestView>,
    overrides: Map<Seq<char>, Seq<char>>,
    i: int,
)
    requires
        0 <= i < v.len(),
    ensures
        spelled_digests(v, overrides).len() == v.len(),
        spelled_digests(v, overrides)[i] == (DigestView {
            game_system: spelled_digests(v, overrides)[i].game_system,
            ..v[i]
        }),
        overrides.contains_key(text::lowered(text::trim(v[i].game_system))) ==> spelled_digests(
            v,
            overrides,
        )[i].game_system == overrides[text::lowered(text::trim(v[i].game_system))],
{
}

/// The groups of copies: those found by fingerprint, then the re-saves.
pub open spec fn planned_duplicates(
    exact: Seq<DuplicateView>,
    v: Seq<EditionView>,
    cfg: Config,
) -> Seq<DuplicateView> {
    if cfg.dedupe.near_duplicates {
        exact + folded_groups(v, work_keys(v), cfg.dedupe.size_tolerance)
    } else {
        exact
    }
}

fn digests_of(editions: &Vec<Edition>) -> (r: Vec<Digest>)
    ensures
        types::digest_views(r@) == edition_digests(edition_views(editions@)),
{
    let ghost all = edition_views(editions@);
    let mut out: Vec<Digest> = Vec::new();
    let mut i: usize = 0;
    while i < editions.len()
        invariant
            all == edition_views(editions@),
            i <= editions@.len(),
            types::digest_views(out@) =~= edition_digests(all).take(i as int),
        decreases editions@.len() - i,
    {
        let ghost before = out@;
        let d = editions[i].digest.clone();
        out.push(d);
        assert(types::digest_views(out@) =~= types::digest_views(before).push(d@));
        i = i + 1;
    }
    assert(edition_digests(all).take(i as int) =~= edition_digests(all));
    out
}

/// The filings once thin folders are folded up, if any are.
pub open spec fn thinned(filings: Seq<(Seq<char>, u32, Seq<char>)>, min_docs: usize) -> Seq<
    (Seq<char>, u32, Seq<char>),
> {
    if any_folds(filings, min_docs) {
        folded_filings(filings, min_docs)
    } else {
        filings
    }
}

/// Whether a plan gives the documents destinations that their filings ask for,
/// and lists those that have none after those that were not described.
pub open spec fn places(
    plan: Plan,
    digests: Seq<DigestView>,
    filings: Seq<(Seq<char>, u32, Seq<char>)>,
    unfiled: Seq<UnfiledView>,
    dests: Seq<Option<Seq<char>>>,
) -> bool {
    &&& are_destined(digests, filings, dests)
    &&& dests.len() == paired_len(digests, filings)
    &&& types::assignment_views(plan.assignments@) == order::arranged(
        all_assigned(digests, filings, dests),
        scan::path_keys(given(dests)),
    )
    &&& unfiled_views(plan.unfiled@) == unfiled + all_unnamed(digests, dests)
}

/// No two documents of a plan are given one destination, so carrying it out
/// never puts one on top of another.
pub proof fn assignments_do_not_collide(
    plan: Plan,
    digests: Seq<DigestView>,
    filings: Seq<(Seq<char>, u32, Seq<char>)>,
    unfiled: Seq<UnfiledView>,
    dests: Seq<Option<Seq<char>>>,
    i: int,
    j: int,
)
    requires
        places(plan, digests, filings, unfiled, dests),
        0 <= i < j < plan.assignments@.len(),
    ensures
        !paths::same_path(plan.assignments@[i]@.dest, plan.assignments@[j]@.dest),
{
    let v = all_assigned(digests, filings, dests);
    let places = given(dests);
    let keys = scan::path_keys(places);
    let views = types::assignment_views(plan.assignments@);
    lemma_assigned(digests, filings, dests);
    order::sorting_keeps_every_item(v, keys, v[0]);
    order::sorting_orders_by_key(v, keys, i, j);
    let (a, b) = choose|a: int, b: int|
        0 <= a < v.len() && 0 <= b < v.len() && a != b && order::arranged(v, keys)[i]
            == #[trigger] v[a] && order::arranged(v, keys)[j] == #[trigger] v[b]
            && !order::lex_before(keys[b], keys[a]);
    assert(views[i].dest == places[a] && views[j].dest == places[b]);
    if a < b {
        destinations_differ(digests, filings, dests, a, b);
    } else {
        destinations_differ(digests, filings, dests, b, a);
    }
}

proof fn lemma_listed(
    digests: Seq<DigestView>,
    filings: Seq<(Seq<char>, u32, Seq<char>)>,
    dests: Seq<Option<Seq<char>>>,
    k: int,
)
    requires
        0 <= k < dests.len(),
    ensures
        match dests[k] {
            Some(p) => all_assigned(digests, filings, dests).contains(
                assigned(digests[k], filings[k], p),
            ),
            None => all_unnamed(digests, dests).contains(unnamed(digests[k].path)),
        },
    decreases dests.len(),
{
    let part = dests.drop_last();
    let done = all_assigned(digests, filings, dests);
    let left = all_unnamed(digests, dests);
    if k < part.len() {
        lemma_listed(digests, filings, part, k);
        match dests[k] {
            Some(p) => {
                let item = assigned(digests[k], filings[k], p);
                let before = all_assigned(digests, filings, part);
                let i = choose|i: int| 0 <= i < before.len() && before[i] == item;
                assert(done[i] == item);
            },
            None => {
                let item = unnamed(digests[k].path);
                let before = all_unnamed(digests, part);
                let i = choose|i: int| 0 <= i < before.len() && before[i] == item;
                assert(left[i] == item);
            },
        }
    } else {
        match dests[k] {
            Some(p) => {
                assert(done.last() == assigned(digests[k], filings[k], p));
            },
            None => {
                assert(left.last() == unnamed(digests[k].path));
            },
        }
    }
}

/// Every document that was filed stands in the plan, under its own hash and at
/// its own destination, or it is listed as having none.
pub proof fn every_document_is_assigned(
    plan: Plan,
    digests: Seq<DigestView>,
    filings: Seq<(Seq<char>, u32, Seq<char>)>,
    unfiled: Seq<UnfiledView>,
    dests: Seq<Option<Seq<char>>>,
    k: int,
)
    requires
        places(plan, digests, filings, unfiled, dests),
        0 <= k < paired_len(digests, filings),
    ensures
        match dests[k] {
            Some(p) => types::assignment_views(plan.assignments@).contains(
                assigned(digests[k], filings[k], p),
            ),
            None => unfiled_views(plan.unfiled@).contains(unnamed(digests[k].path)),
        },
{
    let v = all_assigned(digests, filings, dests);
    lemma_assigned(digests, filings, dests);
    lemma_listed(digests, filings, dests, k);
    match dests[k] {
        Some(p) => {
            order::sorting_keeps_every_item(
                v,
                scan::path_keys(given(dests)),
                assigned(digests[k], filings[k], p),
            );
        },
        None => {
            let left = all_unnamed(digests, dests);
            let i = choose|i: int| 0 <= i < left.len() && left[i] == unnamed(digests[k].path);
            assert((unfiled + left)[unfiled.len() + i] == left[i]);
        },
    }
}

/// Every filing of a plan is that of one of the documents, at the confidence and in
/// the folder that it was filed with.
pub proof fn filings_carry_their_documents(
    plan: Plan,
    digests: Seq<DigestView>,
    filings: Seq<(Seq<char>, u32, Seq<char>)>,
    unfiled: Seq<UnfiledView>,
    dests: Seq<Option<Seq<char>>>,
    a: int,
)
    requires
        places(plan, digests, filings, unfiled, dests),
        0 <= a < plan.assignments@.len(),
    ensures
        exists|k: int|
            0 <= k < dests.len() && (#[trigger] digests[k]).path == plan.assignments@[a]@.source
                && digests[k].hash == plan.assignments@[a]@.hash && digests[k].title
                == plan.assignments@[a]@.title && plan.assignments@[a]@.digest == Some(digests[k])
                && filings[k].0 == plan.assignments@[a]@.leaf && filings[k].1
                == plan.assignments@[a]@.confidence && filings[k].2 == plan.assignments@[a]@.reason
                && dests[k] == Some(plan.assignments@[a]@.dest),
{
    let v = all_assigned(digests, filings, dests);
    let views = types::assignment_views(plan.assignments@);
    lemma_assigned(digests, filings, dests);
    assert(views[a] == plan.assignments@[a]@);
    assert(views.contains(views[a]));
    order::sorting_keeps_every_item(v, scan::path_keys(given(dests)), views[a]);
    let i = choose|i: int| 0 <= i < v.len() && v[i] == views[a];
    lemma_assigned_from(digests, filings, dests, i);
    let k = choose|k: int|
        0 <= k < dests.len() && dests[k] is Some && v[i] == assigned(
            #[trigger] digests[k],
            filings[k],
            dests[k]->0,
        );
    assert(digests[k].path == plan.assignments@[a]@.source);
}

proof fn lemma_assigned_from(
    digests: Seq<DigestView>,
    filings: Seq<(Seq<char>, u32, Seq<char>)>,
    dests: Seq<Option<Seq<char>>>,
    i: int,
)
    requires
        0 <= i < all_assigned(digests, filings, dests).len(),
    ensures
        exists|k: int|
            0 <= k < dests.len() && dests[k] is Some && all_assigned(digests, filings, dests)[i]
                == assigned(#[trigger] digests[k], filings[k], dests[k]->0),
    decreases dests.len(),
{
    let part = dests.drop_last();
    let before = all_assigned(digests, filings, part);
    if i < before.len() {
        lemma_assigned_from(digests, filings, part, i);
        let k = choose|k: int|
            0 <= k < part.len() && part[k] is Some && before[i] == assigned(
                #[trigger] digests[k],
                filings[k],
                part[k]->0,
            );
        assert(dests[k] == part[k]);
        assert(all_assigned(digests, filings, dests)[i] == assigned(digests[k], filings[k], dests[k]->0));
    } else {
        let n = dests.len() - 1;
        assert(all_assigned(digests, filings, dests)[i] == assigned(digests[n], filings[n], dests[n]->0));
    }
}

/// A document gets the place that its folder and its title ask for, unless a document
/// before it has that place.
pub proof fn free_places_are_given(
    digests: Seq<DigestView>,
    filings: Seq<(Seq<char>, u32, Seq<char>)>,
    dests: Seq<Option<Seq<char>>>,
    k: int,
)
    requires
        are_destined(digests, filings, dests),
        0 <= k < dests.len(),
        naming::extension_serves(naming::kept_extension(digests[k].path)),
        forall|j: int|
            0 <= j < k && (#[trigger] dests[j]) is Some ==> !paths::same_path(
                dests[j]->0,
                paths::join(
                    naming::folder(filings[k].0),
                    naming::destination_name(digests[k].title, digests[k].path),
                ),
            ),
    ensures
        dests[k] == Some(
            paths::join(
                naming::folder(filings[k].0),
                naming::destination_name(digests[k].title, digests[k].path),
            ),
        ),
{
    let wanted = paths::join(
        naming::folder(filings[k].0),
        naming::destination_name(digests[k].title, digests[k].path),
    );
    let taken = given(dests.take(k));
    assert forall|i: int| 0 <= i < taken.len() implies !paths::same_path(
        #[trigger] taken[i],
        wanted,
    ) by {
        lemma_given_from(dests.take(k), i);
        let j = choose|j: int|
            0 <= j < dests.take(k).len() && #[trigger] dests.take(k)[j] == Some(taken[i]);
        assert(dests[j] == dests.take(k)[j]);
    }
    assert(naming::is_free(taken, wanted));
    assert(is_destined(taken, digests[k], filings[k].0, dests[k]));
}

proof fn lemma_given_from(dests: Seq<Option<Seq<char>>>, i: int)
    requires
        0 <= i < given(dests).len(),
    ensures
        exists|j: int| 0 <= j < dests.len() && #[trigger] dests[j] == Some(given(dests)[i]),
    decreases dests.len(),
{
    let part = dests.drop_last();
    if i < given(part).len() {
        lemma_given_from(part, i);
        let j = choose|j: int| 0 <= j < part.len() && #[trigger] part[j] == Some(given(part)[i]);
        assert(dests[j] == part[j]);
    } else {
        assert(dests[dests.len() - 1] == Some(given(dests)[i]));
    }
}

/// A document that nothing fitted well enough stays in the unsorted folder,
/// whatever is folded up.
pub proof fn doubtful_documents_stay_unsorted(
    outcomes: Seq<Result<FilingView, Seq<char>>>,
    min_confidence: u32,
    min_docs: usize,
    i: int,
)
    requires
        0 <= i < outcomes.len(),
        !float::at_least(thinned(all_settled(outcomes, min_confidence), min_docs)[i].1, min_confidence),
    ensures
        thinned(all_settled(outcomes, min_confidence), min_docs)[i].0 == UNSORTED@,
{
    let asked = all_settled(outcomes, min_confidence);
    folding_moves_one_level_up(asked, min_docs, i);
    assert(asked[i] == settled(outcomes[i], min_confidence));
    assert(asked[i].0 == UNSORTED@);
    some_folders_never_fold(asked, min_docs, i);
}

/// Whether a tree is the one that was designed; or, if thin folders were folded
/// up, the folders that documents ended up in, in order. Its notes are kept.
pub open spec fn keeps_tree(
    tree: Taxonomy,
    designed: Taxonomy,
    asked: Seq<(Seq<char>, u32, Seq<char>)>,
    min_docs: usize,
) -> bool {
    &&& tree.notes == designed.notes
    &&& if any_folds(asked, min_docs) {
        &&& order::ascending(tree.leaf_list())
        &&& forall|x: Seq<char>| #[trigger]
            tree.leaf_list().contains(x) <==> folders_of(thinned(asked, min_docs)).contains(x)
    } else {
        tree == designed
    }
}

/// Put a plan together from the tree that was designed and the filings that were
/// made: thin folders are folded up, and every document is given a destination
/// of its own.
pub fn assemble_plan(
    cfg: &Config,
    created: Timestamp,
    mode: LinkMode,
    digests: &Vec<Digest>,
    taxonomy: Taxonomy,
    filings: Vec<(String, u32, String)>,
    unfiled: Vec<Unfiled>,
    duplicates: Vec<Duplicate>,
) -> (plan: Plan)
    ensures
        plan.created == created,
        plan.mode == mode,
        plan.source_root@ == cfg.source@,
        plan.library_root@ == cfg.library@,
        plan.duplicates == duplicates,
        keeps_tree(
            plan.taxonomy,
            taxonomy,
            filing_views(filings@),
            cfg.taxonomy.min_docs_per_leaf,
        ),
        all_inside(types::assignment_views(plan.assignments@)),
        exists|dests: Seq<Option<Seq<char>>>| #[trigger]
            places(
                plan,
                types::digest_views(digests@),
                thinned(filing_views(filings@), cfg.taxonomy.min_docs_per_leaf),
                unfiled_views(unfiled@),
                dests,
            ),
{
    let ghost asked = filing_views(filings@);
    let ghost undescribed_docs = unfiled_views(unfiled@);
    let (taxonomy, filings) = fold_thin_leaves(taxonomy, filings, cfg.taxonomy.min_docs_per_leaf);
    let ghost said = filing_views(filings@);
    assert(said == thinned(asked, cfg.taxonomy.min_docs_per_leaf));
    assert(said.len() == filings@.len() && asked.len() == said.len());
    let (assignments, left) = to_assignments(digests, &filings);
    let mut unfiled = unfiled;
    let mut left = left;
    let ghost before = unfiled@;
    let ghost more = left@;
    unfiled.append(&mut left);
    assert(unfiled_views(unfiled@) =~= unfiled_views(before) + unfiled_views(more));
    let plan = Plan {
        created,
        source_root: cfg.source.clone(),
        library_root: cfg.library.clone(),
        mode,
        taxonomy,
        assignments,
        unfiled,
        duplicates,
    };
    proof {
        let views = types::digest_views(digests@);
        assert(views.len() == digests@.len());
        let dests = choose|dests: Seq<Option<Seq<char>>>| #[trigger]
            are_destined(views, said, dests) && dests.len() == paired_len(digests@, filings@)
                && types::assignment_views(assignments@) == order::arranged(
                all_assigned(views, said, dests),
                scan::path_keys(given(dests)),
            ) && unfiled_views(more) == all_unnamed(views, dests);
        assert(places(plan, views, said, undescribed_docs, dests));
    }
    plan
}

/// Whether a plan is what came of a backend's tree and choices: it designed the
/// tree for all the documents, was asked about each of them in turn, and the plan
/// follows.
pub open spec fn is_planned<B: Brain>(
    first: B,
    designer: B,
    last: B,
    cfg: Config,
    digests: Seq<DigestView>,
    unfiled: Seq<UnfiledView>,
    designed: Taxonomy,
    asked: Seq<(Seq<char>, u32, Seq<char>)>,
    dests: Seq<Option<Seq<char>>>,
    plan: Plan,
) -> bool {
    let least = cfg.taxonomy.min_docs_per_leaf;
    &&& B::designs(first, digests, cfg.taxonomy, designer, Ok(designed))
    &&& are_filed(designer, last, digests, designed, cfg.taxonomy.min_confidence, asked)
    &&& keeps_tree(plan.taxonomy, designed, asked, least)
    &&& asked.len() == digests.len()
    &&& places(plan, digests, thinned(asked, least), unfiled, dests)
}

/// Plan the library for the documents that were described.
///
/// Copies of one work are folded together, the names of systems are folded to
/// one spelling, the brain designs a tree and files every document into it, and
/// the plan is put together from that. It fails if there is no document, or if
/// the brain cannot design a tree.
pub fn build_plan<B: Brain>(
    cfg: &Config,
    brain: &mut B,
    created: Timestamp,
    mode: LinkMode,
    editions: &Vec<Edition>,
    unfiled: Vec<Unfiled>,
    duplicates: Vec<Duplicate>,
) -> (r: Result<Plan, String>)
    ensures
        match r {
            Ok(plan) => {
                let digests = planned_digests(edition_views(editions@), *cfg);
                &&& editions@.len() > 0
                &&& plan.created == created
                &&& plan.mode == mode
                &&& plan.source_root@ == cfg.source@
                &&& plan.library_root@ == cfg.library@
                &&& types::duplicate_views(plan.duplicates@) == planned_duplicates(
                    types::duplicate_views(duplicates@),
                    edition_views(editions@),
                    *cfg,
                )
                &&& all_inside(types::assignment_views(plan.assignments@))
                &&& forall|x: Seq<char>| #[trigger]
                    listed_times(plan, x) == order::times(
                        edition_paths(edition_views(editions@)),
                        x,
                    ) + order::times(unfiled_paths(unfiled_views(unfiled@)), x) + order::times(
                        scan::all_others(types::duplicate_views(duplicates@)),
                        x,
                    )
                &&& exists|
                    designer: B,
                    designed: Taxonomy,
                    asked: Seq<(Seq<char>, u32, Seq<char>)>,
                    dests: Seq<Option<Seq<char>>>,
                | #[trigger]
                    is_planned(
                        *old(brain),
                        designer,
                        *final(brain),
                        *cfg,
                        digests,
                        unfiled_views(unfiled@),
                        designed,
                        asked,
                        dests,
                        plan,
                    )
            },
            Err(why) => if editions@.len() == 0 {
                why@ == NOTHING_TO_PLAN@ && *final(brain) == *old(brain)
            } else {
                B::designs(
                    *old(brain),
                    planned_digests(edition_views(editions@), *cfg),
                    cfg.taxonomy,
                    *final(brain),
                    Err(why),
                )
            },
        },
{
    if editions.len() == 0 {
        return Err(own(NOTHING_TO_PLAN));
    }
    let ghost all = edition_views(editions@);
    let ghost exact = types::duplicate_views(duplicates@);
    let ghost undescribed_docs = unfiled_views(unfiled@);
    let mut duplicates = duplicates;
    let kept = if cfg.dedupe.near_duplicates {
        let (kept, near) = fold_near_duplicates(editions, cfg.dedupe.size_tolerance);
        let ghost before = duplicates@;
        let mut near = near;
        let ghost found_near = near@;
        duplicates.append(&mut near);
        assert(types::duplicate_views(duplicates@) =~= types::duplicate_views(before) + types::duplicate_views(
            found_near,
        ));
        kept
    } else {
        digests_of(editions)
    };
    let digests = spell_systems(&kept, &cfg.systems);
    let ghost planned = types::digest_views(digests@);
    assert(planned == planned_digests(all, *cfg));
    assert(types::duplicate_views(duplicates@) == planned_duplicates(exact, all, *cfg));
    assert(planned.len() == digests@.len());
    let taxonomy = match brain.design_taxonomy(&digests, &cfg.taxonomy) {
        Ok(taxonomy) => taxonomy,
        Err(why) => {
            return Err(why);
        },
    };
    let ghost designer = *brain;
    let ghost designed = taxonomy;
    let filings = file_all(brain, &taxonomy, &digests, cfg.taxonomy.min_confidence);
    let ghost asked = filing_views(filings@);
    assert(asked.len() == filings@.len());
    let plan = assemble_plan(cfg, created, mode, &digests, taxonomy, filings, unfiled, duplicates);
    proof {
        let dests = choose|dests: Seq<Option<Seq<char>>>| #[trigger]
            places(
                plan,
                planned,
                thinned(asked, cfg.taxonomy.min_docs_per_leaf),
                undescribed_docs,
                dests,
            );
        assert(is_planned(
            *old(brain),
            designer,
            *brain,
            *cfg,
            planned,
            undescribed_docs,
            designed,
            asked,
            dests,
            plan,
        ));
        assert forall|x: Seq<char>| #[trigger] listed_times(plan, x) == order::times(
            edition_paths(all),
            x,
        ) + order::times(unfiled_paths(undescribed_docs), x) + order::times(
            scan::all_others(exact),
            x,
        ) by {
            every_document_is_listed_once(
                plan,
                all,
                exact,
                undescribed_docs,
                thinned(asked, cfg.taxonomy.min_docs_per_leaf),
                dests,
                *cfg,
                x,
            );
        }
    }
    Ok(plan)
}

// ---------------------------------------------------------------------------
// Every document is listed once
// ---------------------------------------------------------------------------

pub open spec fn digest_paths(v: Seq<DigestView>) -> Seq<Seq<char>> {
    Seq::new(v.len(), |i: int| v[i].path)
}

pub open spec fn unfiled_paths(v: Seq<UnfiledView>) -> Seq<Seq<char>> {
    Seq::new(v.len(), |i: int| v[i].path)
}

pub open spec fn sources_of(v: Seq<AssignmentView>) -> Seq<Seq<char>> {
    Seq::new(v.len(), |i: int| v[i].source)
}

/// How often a plan lists a path: as the source of an assignment, as unfiled, or
/// as a copy.
pub open spec fn listed_times(plan: Plan, x: Seq<char>) -> nat {
    order::times(sources_of(types::assignment_views(plan.assignments@)), x) + order::times(
        unfiled_paths(unfiled_views(plan.unfiled@)),
        x,
    ) + order::times(scan::all_others(types::duplicate_views(plan.duplicates@)), x)
}

proof fn lemma_pushed(s: Seq<Seq<char>>, y: Seq<char>, x: Seq<char>)
    ensures
        order::times(s.push(y), x) == order::times(s, x) + (if y == x {
            1nat
        } else {
            0nat
        }),
{
    assert(s.push(y).drop_last() =~= s);
}

/// Parting the documents by the cache lists each of them once.
pub proof fn every_document_is_cached_or_pending(
    m: Map<Seq<char>, DigestView>,
    docs: Seq<SourceDocView>,
    x: Seq<char>,
)
    ensures
        order::times(digest_paths(cached_digests(m, docs)), x) + order::times(
            scan::doc_paths(pending_docs(m, docs)),
            x,
        ) == order::times(scan::doc_paths(docs), x),
    decreases docs.len(),
{
    if docs.len() == 0 {
        assert(digest_paths(cached_digests(m, docs)) =~= seq![]);
        assert(scan::doc_paths(pending_docs(m, docs)) =~= seq![]);
        assert(scan::doc_paths(docs) =~= seq![]);
    } else {
        let part = docs.drop_last();
        let d = docs.last();
        every_document_is_cached_or_pending(m, part, x);
        let known = digest_paths(cached_digests(m, part));
        let unknown = scan::doc_paths(pending_docs(m, part));
        let all = scan::doc_paths(part);
        lemma_pushed(known, d.path, x);
        lemma_pushed(unknown, d.path, x);
        lemma_pushed(all, d.path, x);
        assert(scan::doc_paths(docs) =~= all.push(d.path));
        if m.contains_key(d.hash) {
            assert(digest_paths(cached_digests(m, docs)) =~= known.push(d.path));
        } else {
            assert(scan::doc_paths(pending_docs(m, docs)) =~= unknown.push(d.path));
        }
    }
}

proof fn lemma_parted_paths(
    winner: EditionView,
    rest: Seq<EditionView>,
    tolerance: u32,
    x: Seq<char>,
)
    ensures
        order::times(edition_paths(resaves(winner, rest, tolerance)), x) + order::times(
            edition_paths(different(winner, rest, tolerance)),
            x,
        ) == order::times(edition_paths(rest), x),
    decreases rest.len(),
{
    let same = edition_paths(resaves(winner, rest, tolerance));
    let other = edition_paths(different(winner, rest, tolerance));
    if rest.len() == 0 {
        assert(same =~= seq![] && other =~= seq![] && edition_paths(rest) =~= seq![]);
    } else {
        let part = rest.drop_last();
        let y = rest.last().digest.path;
        lemma_parted_paths(winner, part, tolerance, x);
        let a = edition_paths(resaves(winner, part, tolerance));
        let b = edition_paths(different(winner, part, tolerance));
        lemma_pushed(a, y, x);
        lemma_pushed(b, y, x);
        lemma_pushed(edition_paths(part), y, x);
        assert(edition_paths(rest) =~= edition_paths(part).push(y));
        if is_resave(winner, rest.last(), tolerance) {
            assert(same =~= a.push(y) && other =~= b);
        } else {
            assert(same =~= a && other =~= b.push(y));
        }
    }
}

/// Among files of one title, each is a work or is listed under one.
proof fn lemma_line_paths(line: Seq<EditionView>, tolerance: u32, x: Seq<char>)
    ensures
        order::times(edition_paths(works(line, tolerance)), x) + order::times(
            scan::all_others(resave_groups(line, tolerance)),
            x,
        ) == order::times(edition_paths(line), x),
    decreases line.len(),
{
    if line.len() == 0 {
        assert(edition_paths(works(line, tolerance)) =~= seq![]);
        assert(edition_paths(line) =~= seq![]);
    } else {
        let first = line[0];
        let tail = line.skip(1);
        let copies = resaves(first, tail, tolerance);
        let rest = different(first, tail, tolerance);
        let y = first.digest.path;
        lemma_parted(first, tail, tolerance);
        lemma_parted_paths(first, tail, tolerance, x);
        lemma_line_paths(rest, tolerance, x);
        order::lemma_times_one(y, x);
        order::lemma_times_added(seq![y], edition_paths(tail), x);
        order::lemma_times_added(seq![y], edition_paths(works(rest, tolerance)), x);
        assert(edition_paths(line) =~= seq![y] + edition_paths(tail));
        assert(edition_paths(works(line, tolerance)) =~= seq![y] + edition_paths(
            works(rest, tolerance),
        ));
        if copies.len() == 0 {
            assert(edition_paths(copies) =~= seq![]);
        } else {
            let group = DuplicateView {
                hash: first.digest.hash,
                kept: y,
                others: edition_paths(copies),
            };
            scan::lemma_others_added(seq![group], resave_groups(rest, tolerance), x);
            assert(seq![group].drop_last() =~= seq![]);
            let none = Seq::<Seq<char>>::empty();
            assert(scan::all_others(seq![group].drop_last()) == none);
            assert(none + group.others =~= group.others);
        }
    }
}

/// The files whose key occurs among the first `n` of some keys.
spec fn with_keys(
    v: Seq<EditionView>,
    keys: Seq<Seq<char>>,
    all: Seq<Seq<char>>,
    n: int,
) -> Seq<EditionView>
    decreases v.len(),
{
    if v.len() == 0 || v.len() != keys.len() {
        seq![]
    } else {
        let before = with_keys(v.drop_last(), keys.drop_last(), all, n);
        if exists|j: int| 0 <= j < n && #[trigger] all[j] == keys.last() {
            before.push(v.last())
        } else {
            before
        }
    }
}

proof fn lemma_with_no_keys(v: Seq<EditionView>, keys: Seq<Seq<char>>, all: Seq<Seq<char>>)
    ensures
        with_keys(v, keys, all, 0).len() == 0,
    decreases v.len(),
{
    if v.len() > 0 && v.len() == keys.len() {
        lemma_with_no_keys(v.drop_last(), keys.drop_last(), all);
    }
}

proof fn lemma_with_all_keys(v: Seq<EditionView>, keys: Seq<Seq<char>>, all: Seq<Seq<char>>)
    requires
        v.len() == keys.len(),
        keys.len() <= all.len(),
        keys == all.take(keys.len() as int),
    ensures
        with_keys(v, keys, all, all.len() as int) == v,
    decreases v.len(),
{
    if v.len() > 0 {
        assert(keys.drop_last() =~= all.take(keys.len() - 1));
        lemma_with_all_keys(v.drop_last(), keys.drop_last(), all);
        assert(all[keys.len() - 1] == keys.last());
        assert(v.drop_last().push(v.last()) =~= v);
    } else {
        assert(with_keys(v, keys, all, all.len() as int) =~= v);
    }
}

/// One more key adds the files that have it, if it is new.
proof fn lemma_with_more_keys(
    v: Seq<EditionView>,
    keys: Seq<Seq<char>>,
    all: Seq<Seq<char>>,
    n: int,
    x: Seq<char>,
)
    requires
        0 < n <= all.len(),
        v.len() == keys.len(),
    ensures
        order::times(edition_paths(with_keys(v, keys, all, n)), x) == order::times(
            edition_paths(with_keys(v, keys, all, n - 1)),
            x,
        ) + (if is_first_key(all, n - 1) {
            order::times(edition_paths(titled(v, keys, all[n - 1])), x)
        } else {
            0
        }),
    decreases v.len(),
{
    let now = with_keys(v, keys, all, n);
    let before = with_keys(v, keys, all, n - 1);
    let own_files = titled(v, keys, all[n - 1]);
    if v.len() == 0 {
        assert(edition_paths(now) =~= seq![]);
        assert(edition_paths(before) =~= seq![]);
        assert(edition_paths(own_files) =~= seq![]);
    } else {
        let y = v.last().digest.path;
        let key = keys.last();
        let a = with_keys(v.drop_last(), keys.drop_last(), all, n);
        let b = with_keys(v.drop_last(), keys.drop_last(), all, n - 1);
        let c = titled(v.drop_last(), keys.drop_last(), all[n - 1]);
        lemma_with_more_keys(v.drop_last(), keys.drop_last(), all, n, x);
        lemma_pushed(edition_paths(a), y, x);
        lemma_pushed(edition_paths(b), y, x);
        lemma_pushed(edition_paths(c), y, x);
        assert(edition_paths(a.push(v.last())) =~= edition_paths(a).push(y));
        assert(edition_paths(b.push(v.last())) =~= edition_paths(b).push(y));
        assert(edition_paths(c.push(v.last())) =~= edition_paths(c).push(y));
        let known = exists|j: int| 0 <= j < n - 1 && #[trigger] all[j] == key;
        if all[n - 1] == key {
            if known {
                let j = choose|j: int| 0 <= j < n - 1 && #[trigger] all[j] == key;
                assert(all[j] == all[n - 1]);
                assert(!is_first_key(all, n - 1));
            } else {
                assert(is_first_key(all, n - 1));
            }
        }
    }
}

proof fn lemma_folded_paths(
    v: Seq<EditionView>,
    keys: Seq<Seq<char>>,
    tolerance: u32,
    n: int,
    x: Seq<char>,
)
    requires
        0 <= n <= v.len(),
        v.len() == keys.len(),
    ensures
        order::times(edition_paths(all_works(v, keys, tolerance, n)), x) + order::times(
            scan::all_others(all_resaves(v, keys, tolerance, n)),
            x,
        ) == order::times(edition_paths(with_keys(v, keys, keys, n)), x),
    decreases n,
{
    if n == 0 {
        lemma_with_no_keys(v, keys, keys);
        assert(edition_paths(with_keys(v, keys, keys, 0)) =~= seq![]);
        assert(edition_paths(all_works(v, keys, tolerance, 0)) =~= seq![]);
    } else {
        lemma_folded_paths(v, keys, tolerance, n - 1, x);
        lemma_with_more_keys(v, keys, keys, n, x);
        if is_first_key(keys, n - 1) {
            let group = titled(v, keys, keys[n - 1]);
            let line = by_size(v, keys, keys[n - 1]);
            let sizes = size_keys(group);
            order::every_list_has_an_order(sizes);
            order::sorting_keeps_counts(edition_paths(group), sizes, x);
            assert(edition_paths(line) =~= order::arranged(edition_paths(group), sizes));
            lemma_line_paths(line, tolerance, x);
            let before = all_works(v, keys, tolerance, n - 1);
            order::lemma_times_added(
                edition_paths(before),
                edition_paths(works(line, tolerance)),
                x,
            );
            assert(edition_paths(before + works(line, tolerance)) =~= edition_paths(before)
                + edition_paths(works(line, tolerance)));
            scan::lemma_others_added(
                all_resaves(v, keys, tolerance, n - 1),
                resave_groups(line, tolerance),
                x,
            );
        }
    }
}

/// Folding re-saves together lists every file exactly as often as before: among
/// the documents to plan for, or among the copies.
pub proof fn every_edition_is_planned_or_listed_once(
    v: Seq<EditionView>,
    exact: Seq<DuplicateView>,
    cfg: Config,
    x: Seq<char>,
)
    ensures
        order::times(digest_paths(planned_digests(v, cfg)), x) + order::times(
            scan::all_others(planned_duplicates(exact, v, cfg)),
            x,
        ) == order::times(edition_paths(v), x) + order::times(scan::all_others(exact), x),
{
    let planned = planned_digests(v, cfg);
    if cfg.dedupe.near_duplicates {
        let keys = work_keys(v);
        let tolerance = cfg.dedupe.size_tolerance;
        let n = v.len() as int;
        let kept = all_works(v, keys, tolerance, n);
        let groups = all_resaves(v, keys, tolerance, n);
        let ranks = scan::path_keys(edition_paths(kept));
        lemma_folded_paths(v, keys, tolerance, n, x);
        assert(keys.take(n) =~= keys);
        lemma_with_all_keys(v, keys, keys);
        order::every_list_has_an_order(ranks);
        order::sorting_keeps_counts(edition_paths(kept), ranks, x);
        assert(digest_paths(planned) =~= order::arranged(edition_paths(kept), ranks));
        scan::lemma_others_sorted(groups, scan::path_keys(scan::kept_paths(groups)), x);
        scan::lemma_others_added(exact, folded_groups(v, keys, tolerance), x);
    } else {
        assert(digest_paths(planned) =~= edition_paths(v));
    }
}

proof fn lemma_destined_paths(
    digests: Seq<DigestView>,
    filings: Seq<(Seq<char>, u32, Seq<char>)>,
    dests: Seq<Option<Seq<char>>>,
    x: Seq<char>,
)
    requires
        dests.len() <= digests.len(),
    ensures
        order::times(sources_of(all_assigned(digests, filings, dests)), x) + order::times(
            unfiled_paths(all_unnamed(digests, dests)),
            x,
        ) == order::times(digest_paths(digests.take(dests.len() as int)), x),
    decreases dests.len(),
{
    let done = sources_of(all_assigned(digests, filings, dests));
    let left = unfiled_paths(all_unnamed(digests, dests));
    let all = digest_paths(digests.take(dests.len() as int));
    if dests.len() == 0 {
        assert(done =~= seq![] && left =~= seq![] && all =~= seq![]);
    } else {
        let part = dests.drop_last();
        let n = dests.len() - 1;
        let y = digests[n].path;
        lemma_destined_paths(digests, filings, part, x);
        let a = sources_of(all_assigned(digests, filings, part));
        let b = unfiled_paths(all_unnamed(digests, part));
        let c = digest_paths(digests.take(n));
        lemma_pushed(a, y, x);
        lemma_pushed(b, y, x);
        lemma_pushed(c, y, x);
        assert(all =~= c.push(y));
        match dests.last() {
            Some(_) => {
                assert(done =~= a.push(y) && left =~= b);
            },
            None => {
                assert(done =~= a && left =~= b.push(y));
            },
        }
    }
}

/// A plan lists every file that was read exactly as often as it was found: as
/// the source of an assignment, as unfiled, or as a copy of another.
pub proof fn every_document_is_listed_once(
    plan: Plan,
    v: Seq<EditionView>,
    exact: Seq<DuplicateView>,
    unfiled: Seq<UnfiledView>,
    filings: Seq<(Seq<char>, u32, Seq<char>)>,
    dests: Seq<Option<Seq<char>>>,
    cfg: Config,
    x: Seq<char>,
)
    requires
        places(plan, planned_digests(v, cfg), filings, unfiled, dests),
        filings.len() == planned_digests(v, cfg).len(),
        types::duplicate_views(plan.duplicates@) == planned_duplicates(exact, v, cfg),
    ensures
        listed_times(plan, x) == order::times(edition_paths(v), x) + order::times(
            unfiled_paths(unfiled),
            x,
        ) + order::times(scan::all_others(exact), x),
{
    let digests = planned_digests(v, cfg);
    let done = all_assigned(digests, filings, dests);
    let ranks = scan::path_keys(given(dests));
    every_edition_is_planned_or_listed_once(v, exact, cfg, x);
    lemma_assigned(digests, filings, dests);
    lemma_destined_paths(digests, filings, dests, x);
    assert(digests.take(dests.len() as int) =~= digests);
    order::every_list_has_an_order(ranks);
    order::sorting_keeps_counts(sources_of(done), ranks, x);
    assert(sources_of(types::assignment_views(plan.assignments@)) =~= order::arranged(
        sources_of(done),
        ranks,
    ));
    let left = all_unnamed(digests, dests);
    order::lemma_times_added(unfiled_paths(unfiled), unfiled_paths(left), x);
    assert(unfiled_paths(unfiled + left) =~= unfiled_paths(unfiled) + unfiled_paths(left));
}

/// From the files that were found to the plan, each is listed once: those kept of
/// every fingerprint are described or listed as unfiled, and the rest are copies.
pub proof fn every_file_found_is_listed_once(
    plan: Plan,
    docs: Seq<SourceDocView>,
    v: Seq<EditionView>,
    unfiled: Seq<UnfiledView>,
    filings: Seq<(Seq<char>, u32, Seq<char>)>,
    dests: Seq<Option<Seq<char>>>,
    cfg: Config,
    x: Seq<char>,
)
    requires
        places(plan, planned_digests(v, cfg), filings, unfiled, dests),
        filings.len() == planned_digests(v, cfg).len(),
        types::duplicate_views(plan.duplicates@) == planned_duplicates(
            scan::duplicate_groups(docs),
            v,
            cfg,
        ),
        order::times(edition_paths(v), x) + order::times(unfiled_paths(unfiled), x) == order::times(
            scan::doc_paths(scan::unique_docs(docs)),
            x,
        ),
    ensures
        listed_times(plan, x) == order::times(scan::doc_paths(docs), x),
{
    every_document_is_listed_once(
        plan,
        v,
        scan::duplicate_groups(docs),
        unfiled,
        filings,
        dests,
        cfg,
        x,
    );
    scan::every_path_is_kept_or_listed_once(docs, x);
}

} // verus!
