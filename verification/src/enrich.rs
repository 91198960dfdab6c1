//! Writing what we know back into the filed PDFs.
//!
//! Metadata and a chapter index are separate ideas and get separate commands,
//! but they cannot be separate rewrites: a rewritten file cannot always be read
//! again, so a second pass over it would silently skip a good part of the
//! library.
//!
//! Every enrichment therefore starts again from the pristine source: the filed
//! copy is replaced, then everything known about the document is applied in one
//! load and one save. That makes the commands idempotent and order-independent,
//! at the cost of copying the file again. Derived outlines are cached so the
//! expensive half — reading headings, and the model judging them — is not
//! repeated.

use lopdf::Document;
use crate::apply;
use crate::apply::{Enriched, SOURCE_MISSING, TOO_MANY_OBJECTS, push_note, rewrite};
use crate::outline;
use crate::outline::{Entry, EntryView, Skip};
use crate::paths;
use crate::paths::join_paths;
use crate::pdf;
use crate::pdf::is_encrypted;
use crate::table::TextMap;
use crate::text::own;
use crate::types;
use crate::types::{Assignment, Digest, Plan};
use vstd::prelude::*;
use vstd::std_specs::convert::FromSpecImpl;

verus! {

/// Outlines derived for each source document, cached between runs.
pub struct OutlineCache {
    /// Keyed by the source document's fingerprint, so a moved or renamed file
    /// keeps its outline and a changed one does not.
    pub by_hash: TextMap<Vec<CachedEntry>>,
}

pub struct CachedEntry {
    pub level: usize,
    pub title: String,
    pub page: usize,
}

impl View for CachedEntry {
    type V = EntryView;

    open spec fn view(&self) -> EntryView {
        EntryView { level: self.level, title: self.title@, page: self.page }
    }
}

pub open spec fn cached_views(v: Seq<CachedEntry>) -> Seq<EntryView> {
    Seq::new(v.len(), |i: int| v[i]@)
}

impl FromSpecImpl<&Entry> for CachedEntry {
    open spec fn obeys_from_spec() -> bool {
        true
    }

    open spec fn from_spec(e: &Entry) -> CachedEntry {
        CachedEntry { level: e.level, title: e.title, page: e.page }
    }
}

impl From<&Entry> for CachedEntry {
    fn from(e: &Entry) -> (r: CachedEntry) {
        CachedEntry { level: e.level, title: e.title.clone(), page: e.page }
    }
}

impl FromSpecImpl<&CachedEntry> for Entry {
    open spec fn obeys_from_spec() -> bool {
        true
    }

    open spec fn from_spec(e: &CachedEntry) -> Entry {
        Entry { level: e.level, title: e.title, page: e.page }
    }
}

impl From<&CachedEntry> for Entry {
    fn from(e: &CachedEntry) -> (r: Entry) {
        Entry { level: e.level, title: e.title.clone(), page: e.page }
    }
}

/// What a cache holds, by fingerprint.
pub open spec fn outlines_by_hash(m: Map<Seq<char>, Vec<CachedEntry>>) -> Map<
    Seq<char>,
    Seq<EntryView>,
> {
    Map::new(|k: Seq<char>| m.contains_key(k), |k: Seq<char>| cached_views(m[k]@))
}

impl View for OutlineCache {
    type V = Map<Seq<char>, Seq<EntryView>>;

    open spec fn view(&self) -> Map<Seq<char>, Seq<EntryView>> {
        outlines_by_hash(self.by_hash@)
    }
}

impl Default for OutlineCache {
    fn default() -> (r: Self)
        ensures
            r@ == Map::<Seq<char>, Seq<EntryView>>::empty(),
    {
        let cache = OutlineCache { by_hash: TextMap::new() };
        assert(cache@ =~= Map::<Seq<char>, Seq<EntryView>>::empty());
        cache
    }
}

impl OutlineCache {
    pub fn get(&self, hash: &str) -> (r: Option<Vec<Entry>>)
        ensures
            match r {
                Some(v) => self@.contains_key(hash@) && outline::entry_views(v@) == self@[hash@],
                None => !self@.contains_key(hash@),
            },
    {
        match self.by_hash.get(hash) {
            Some(list) => {
                let ghost all = cached_views(list@);
                let mut out: Vec<Entry> = Vec::new();
                let mut i: usize = 0;
                while i < list.len()
                    invariant
                        all == cached_views(list@),
                        i <= list@.len(),
                        outline::entry_views(out@) =~= all.take(i as int),
                    decreases list@.len() - i,
                {
                    let ghost before = out@;
                    let e = Entry::from(&list[i]);
                    out.push(e);
                    assert(outline::entry_views(out@) =~= outline::entry_views(before).push(e@));
                    i = i + 1;
                }
                assert(all.take(i as int) =~= all);
                Some(out)
            },
            None => None,
        }
    }

    pub fn put(&mut self, hash: &str, entries: &[Entry])
        ensures
            final(self)@ == old(self)@.insert(hash@, outline::entry_views(entries@)),
    {
        let ghost all = outline::entry_views(entries@);
        let mut list: Vec<CachedEntry> = Vec::new();
        let mut i: usize = 0;
        while i < entries.len()
            invariant
                all == outline::entry_views(entries@),
                i <= entries@.len(),
                cached_views(list@) =~= all.take(i as int),
            decreases entries@.len() - i,
        {
            let ghost before = list@;
            let e = CachedEntry::from(&entries[i]);
            list.push(e);
            assert(cached_views(list@) =~= cached_views(before).push(e@));
            i = i + 1;
        }
        assert(all.take(i as int) =~= all);
        let ghost start = self@;
        self.by_hash.insert(own(hash), list);
        assert(self@ =~= start.insert(hash@, all));
    }
}

/// An outline that was put can be got, until another is put under its
/// fingerprint.
pub proof fn a_cached_outline_can_be_got(
    m: Map<Seq<char>, Seq<EntryView>>,
    hash: Seq<char>,
    entries: Seq<EntryView>,
    other: Seq<char>,
    later: Seq<EntryView>,
)
    requires
        other != hash,
    ensures
        m.insert(hash, entries).insert(other, later).contains_key(hash),
        m.insert(hash, entries).insert(other, later)[hash] == entries,
{
}

/// What one document should end up carrying.
pub struct Wanted<'a> {
    pub metadata: Option<&'a Digest>,
    pub outline: Option<Vec<Entry>>,
}

pub open spec fn opt_list(o: Option<Vec<Entry>>) -> Option<Seq<EntryView>> {
    match o {
        Some(v) => Some(outline::entry_views(v@)),
        None => None,
    }
}

/// What a document of a plan should end up carrying.
pub fn wanted_for<'a>(assignment: &'a Assignment, cache: &OutlineCache) -> (r: Wanted<'a>)
    ensures
        apply::opt_digest_ref(r.metadata) == types::opt_digest(assignment.digest),
        opt_list(r.outline) == (if cache@.contains_key(assignment.hash@) {
            Some(cache@[assignment.hash@])
        } else {
            None
        }),
{
    Wanted {
        metadata: match &assignment.digest {
            Some(d) => Some(d),
            None => None,
        },
        outline: cache.get(assignment.hash.as_str()),
    }
}

impl<'a> Wanted<'a> {
    /// Whether there is anything to write.
    pub fn is_nothing(&self) -> (r: bool)
        ensures
            r == (self.metadata is None && self.outline is None),
    {
        self.metadata.is_none() && self.outline.is_none()
    }
}

/// What actually happened.
pub struct Outcome {
    pub refreshed: usize,
    pub stamped: usize,
    pub indexed: usize,
    pub bookmarks: usize,
    pub skipped: Vec<(String, String)>,
}

impl Default for Outcome {
    fn default() -> (r: Self)
        ensures
            r.refreshed == 0,
            r.stamped == 0,
            r.indexed == 0,
            r.bookmarks == 0,
            r.skipped@.len() == 0,
    {
        Outcome { refreshed: 0, stamped: 0, indexed: 0, bookmarks: 0, skipped: Vec::new() }
    }
}

pub open spec fn one_if(b: bool) -> nat {
    if b {
        1
    } else {
        0
    }
}

impl Outcome {
    /// Whether there is room to count one more document with `n` bookmarks.
    pub open spec fn has_room_for(self, n: int) -> bool {
        &&& self.refreshed < usize::MAX
        &&& self.stamped < usize::MAX
        &&& self.indexed < usize::MAX
        &&& self.bookmarks + n <= usize::MAX
    }

    /// Count what would be written into a document, without writing it.
    pub fn would(&mut self, wanted: &Wanted)
        requires
            old(self).has_room_for(
                match wanted.outline {
                    Some(v) => v@.len() as int,
                    None => 0,
                },
            ),
        ensures
            final(self).refreshed == old(self).refreshed + 1,
            final(self).stamped == old(self).stamped + one_if(wanted.metadata is Some),
            final(self).indexed == old(self).indexed + one_if(wanted.outline is Some),
            final(self).bookmarks == old(self).bookmarks + (match wanted.outline {
                Some(v) => v@.len() as int,
                None => 0,
            }),
            final(self).skipped@ == old(self).skipped@,
    {
        self.refreshed = self.refreshed + 1;
        if wanted.metadata.is_some() {
            self.stamped = self.stamped + 1;
        }
        if let Some(entries) = &wanted.outline {
            self.indexed = self.indexed + 1;
            self.bookmarks = self.bookmarks + entries.len();
        }
    }

    /// Take in what became of a document.
    pub fn settle(&mut self, dest: &str, result: Result<Enriched, String>)
        requires
            old(self).has_room_for(
                match result {
                    Ok(done) => done.bookmarks as int,
                    Err(_) => 0,
                },
            ),
        ensures
            match result {
                Ok(done) => {
                    &&& final(self).refreshed == old(self).refreshed + 1
                    &&& final(self).stamped == old(self).stamped + one_if(done.stamped)
                    &&& final(self).indexed == old(self).indexed + one_if(done.bookmarks > 0)
                    &&& final(self).bookmarks == old(self).bookmarks + done.bookmarks
                    &&& apply::note_views(final(self).skipped@) == (match done.outline_skipped {
                        Some(why) => apply::note_views(old(self).skipped@).push((dest@, why@)),
                        None => apply::note_views(old(self).skipped@),
                    })
                },
                Err(why) => {
                    &&& final(self).refreshed == old(self).refreshed
                    &&& final(self).stamped == old(self).stamped
                    &&& final(self).indexed == old(self).indexed
                    &&& final(self).bookmarks == old(self).bookmarks
                    &&& apply::note_views(final(self).skipped@) == apply::note_views(old(self).skipped@).push(
                        (dest@, why@),
                    )
                },
            },
    {
        match result {
            Ok(done) => {
                self.refreshed = self.refreshed + 1;
                if done.stamped {
                    self.stamped = self.stamped + 1;
                }
                if done.bookmarks > 0 {
                    self.indexed = self.indexed + 1;
                    self.bookmarks = self.bookmarks + done.bookmarks;
                }
                if let Some(why) = done.outline_skipped {
                    push_note(&mut self.skipped, dest, why.as_str());
                }
            },
            Err(why) => {
                push_note(&mut self.skipped, dest, why.as_str());
            },
        }
    }
}

/// Write everything wanted into a freshly restored document, at once. An
/// encrypted one is left alone.
pub fn write_wanted(doc: &mut Document, wanted: &Wanted) -> (r: Result<Enriched, String>)
    ensures
        pdf::encrypted(*old(doc)) ==> (r matches Err(why) && why@ == Skip::Encrypted.reason()
            && *final(doc) == *old(doc)),
        !pdf::encrypted(*old(doc)) && wanted.metadata is Some && pdf::max_id_of(*old(doc)) == u32::MAX
            ==> (r matches Err(why) && why@ == TOO_MANY_OBJECTS@ && *final(doc) == *old(doc)),
        !pdf::encrypted(*old(doc)) && !(wanted.metadata is Some && pdf::max_id_of(*old(doc)) == u32::MAX)
            ==> (r matches Ok(done) && {
            &&& done.stamped == apply::takes_fields(*old(doc), apply::opt_digest_ref(wanted.metadata))
            &&& done.changed == (done.stamped || done.bookmarks > 0)
            &&& exists|mid: Document| #[trigger]
                apply::stamps(*old(doc), mid, apply::opt_digest_ref(wanted.metadata)) && apply::indexes(
                    mid,
                    *final(doc),
                    opt_list(wanted.outline),
                    done,
                )
        }),
{
    if is_encrypted(doc) {
        return Err(Skip::Encrypted.message());
    }
    let entries = match &wanted.outline {
        Some(v) => Some(v),
        None => None,
    };
    rewrite(doc, wanted.metadata, entries)
}

// ---------------------------------------------------------------------------
// A whole library
// ---------------------------------------------------------------------------

/// What is to be done next about the document in hand.
#[derive(Debug, Clone, Copy, PartialEq, Eq, Structural)]
pub enum RefreshTask {
    /// See whether its source and the filed copy are there.
    Inspect,
    /// Make the directory it is filed in. Tells whether the filed copy is there.
    MakeParent { there: bool },
    /// Remove the filed copy. Copying onto a hard link would write straight through
    /// to the source.
    Clear,
    /// Copy the source to where it is filed.
    Copy,
    /// Load the copy, write everything wanted into it, and save it.
    Write,
    Finished,
}

/// What came of a task.
pub enum RefreshEvent {
    Inspected { source_exists: bool, dest_exists: bool },
    ParentMade,
    Cleared,
    Copied,
    /// The directory was not made, or the copy was not removed or not made.
    Failed(String),
    Written(Result<Enriched, String>),
}

/// Where refreshing stands.
pub struct RefreshView {
    /// The document in hand.
    pub at: nat,
    pub task: RefreshTask,
    pub refreshed: nat,
    pub stamped: nat,
    pub indexed: nat,
    pub bookmarks: nat,
    pub skipped: Seq<(Seq<char>, Seq<char>)>,
}

/// The outline that a document of a plan should carry.
pub open spec fn outline_for(plan: Plan, cache: Map<Seq<char>, Seq<EntryView>>, at: int) -> Option<
    Seq<EntryView>,
> {
    let hash = plan.assignments@[at].hash@;
    if cache.contains_key(hash) {
        Some(cache[hash])
    } else {
        None
    }
}

pub open spec fn entry_count(o: Option<Seq<EntryView>>) -> nat {
    match o {
        Some(v) => v.len(),
        None => 0,
    }
}

/// Whether there is anything to write into a document of a plan.
pub open spec fn wants_something(
    plan: Plan,
    cache: Map<Seq<char>, Seq<EntryView>>,
    at: int,
) -> bool {
    plan.assignments@[at].digest is Some || outline_for(plan, cache, at) is Some
}

/// On to the next document that has to be rewritten. One that wants nothing is
/// passed over, and in a dry run the others are only counted.
pub open spec fn passed_over(
    v: RefreshView,
    plan: Plan,
    cache: Map<Seq<char>, Seq<EntryView>>,
    dry_run: bool,
) -> RefreshView
    decreases plan.assignments@.len() - v.at,
{
    let at = v.at as int;
    if at >= plan.assignments@.len() {
        RefreshView { task: RefreshTask::Finished, ..v }
    } else if !wants_something(plan, cache, at) {
        passed_over(RefreshView { at: v.at + 1, ..v }, plan, cache, dry_run)
    } else if dry_run {
        passed_over(
            RefreshView {
                at: v.at + 1,
                refreshed: v.refreshed + 1,
                stamped: v.stamped + one_if(plan.assignments@[at].digest is Some),
                indexed: v.indexed + one_if(outline_for(plan, cache, at) is Some),
                bookmarks: v.bookmarks + entry_count(outline_for(plan, cache, at)),
                ..v
            },
            plan,
            cache,
            dry_run,
        )
    } else {
        RefreshView { task: RefreshTask::Inspect, ..v }
    }
}

/// Where a document of a plan is filed.
pub open spec fn filed_at(plan: Plan, at: int) -> Seq<char> {
    paths::join(plan.library_root@, plan.assignments@[at].dest@)
}

/// On from a document that could not be written anew.
pub open spec fn passed_by(
    v: RefreshView,
    plan: Plan,
    cache: Map<Seq<char>, Seq<EntryView>>,
    why: Seq<char>,
) -> RefreshView {
    passed_over(
        RefreshView {
            at: v.at + 1,
            skipped: v.skipped.push((filed_at(plan, v.at as int), why)),
            ..v
        },
        plan,
        cache,
        false,
    )
}

/// On from a document that was written anew.
pub open spec fn counted(
    v: RefreshView,
    plan: Plan,
    cache: Map<Seq<char>, Seq<EntryView>>,
    done: Enriched,
) -> RefreshView {
    passed_over(
        RefreshView {
            at: v.at + 1,
            refreshed: v.refreshed + 1,
            stamped: v.stamped + one_if(done.stamped),
            indexed: v.indexed + one_if(done.bookmarks > 0),
            bookmarks: v.bookmarks + done.bookmarks as nat,
            skipped: match done.outline_skipped {
                Some(why) => v.skipped.push((filed_at(plan, v.at as int), why@)),
                None => v.skipped,
            },
            ..v
        },
        plan,
        cache,
        false,
    )
}

/// Where refreshing stands after an event. One that is no answer to the task in
/// hand changes nothing.
pub open spec fn refresh_step(
    v: RefreshView,
    plan: Plan,
    cache: Map<Seq<char>, Seq<EntryView>>,
    event: RefreshEvent,
) -> RefreshView {
    if v.at >= plan.assignments@.len() {
        v
    } else {
        match (v.task, event) {
            (RefreshTask::Inspect, RefreshEvent::Inspected { source_exists, dest_exists }) =>
            if source_exists {
                RefreshView { task: RefreshTask::MakeParent { there: dest_exists }, ..v }
            } else {
                passed_by(v, plan, cache, SOURCE_MISSING@)
            },
            (RefreshTask::MakeParent { there }, RefreshEvent::ParentMade) => RefreshView {
                task: if there {
                    RefreshTask::Clear
                } else {
                    RefreshTask::Copy
                },
                ..v
            },
            (RefreshTask::MakeParent { there: _ }, RefreshEvent::Failed(why)) => passed_by(
                v,
                plan,
                cache,
                why@,
            ),
            (RefreshTask::Clear, RefreshEvent::Cleared) => RefreshView {
                task: RefreshTask::Copy,
                ..v
            },
            (RefreshTask::Clear, RefreshEvent::Failed(why)) => passed_by(v, plan, cache, why@),
            (RefreshTask::Copy, RefreshEvent::Copied) => RefreshView {
                task: RefreshTask::Write,
                ..v
            },
            (RefreshTask::Copy, RefreshEvent::Failed(why)) => passed_by(v, plan, cache, why@),
            (RefreshTask::Write, RefreshEvent::Written(result)) => match result {
                Ok(done) => counted(v, plan, cache, done),
                Err(why) => passed_by(v, plan, cache, why@),
            },
            _ => v,
        }
    }
}

/// The bookmarks that the documents of a plan should carry, from one on.
pub open spec fn wanted_bookmarks(
    plan: Plan,
    cache: Map<Seq<char>, Seq<EntryView>>,
    from: int,
) -> nat
    decreases plan.assignments@.len() - from,
{
    if from < 0 || from >= plan.assignments@.len() {
        0
    } else {
        entry_count(outline_for(plan, cache, from)) + wanted_bookmarks(plan, cache, from + 1)
    }
}

/// The documents of a plan from one on that have something to be written into them,
/// by their positions: a digest, or an outline that is cached under their hash.
pub open spec fn in_want(
    plan: Plan,
    cache: Map<Seq<char>, Seq<EntryView>>,
    from: int,
) -> Set<int> {
    Set::new(
        |i: int|
            from <= i < plan.assignments@.len() && (plan.assignments@[i].digest is Some
                || cache.contains_key(plan.assignments@[i].hash@)),
    )
}

/// A dry run counts the documents that would be written anew, and does no more.
pub proof fn a_dry_run_only_counts(
    v: RefreshView,
    plan: Plan,
    cache: Map<Seq<char>, Seq<EntryView>>,
)
    requires
        v.at <= plan.assignments@.len(),
    ensures
        in_want(plan, cache, v.at as int).finite(),
        passed_over(v, plan, cache, true).task == RefreshTask::Finished,
        passed_over(v, plan, cache, true).refreshed == v.refreshed + in_want(
            plan,
            cache,
            v.at as int,
        ).len(),
        passed_over(v, plan, cache, true).skipped == v.skipped,
    decreases plan.assignments@.len() - v.at,
{
    let at = v.at as int;
    let here = in_want(plan, cache, at);
    let later = in_want(plan, cache, at + 1);
    if at >= plan.assignments@.len() {
        assert(here =~= Set::empty());
    } else if !wants_something(plan, cache, at) {
        a_dry_run_only_counts(RefreshView { at: v.at + 1, ..v }, plan, cache);
        assert(here =~= later);
    } else {
        a_dry_run_only_counts(
            RefreshView {
                at: v.at + 1,
                refreshed: v.refreshed + 1,
                stamped: v.stamped + one_if(plan.assignments@[at].digest is Some),
                indexed: v.indexed + one_if(outline_for(plan, cache, at) is Some),
                bookmarks: v.bookmarks + entry_count(outline_for(plan, cache, at)),
                ..v
            },
            plan,
            cache,
        );
        assert(here =~= later.insert(at));
    }
}

/// Refreshing goes on to the next document that has something to be written into it,
/// and leaves out no such document.
pub proof fn no_document_in_want_is_passed_over(
    v: RefreshView,
    plan: Plan,
    cache: Map<Seq<char>, Seq<EntryView>>,
    i: int,
)
    requires
        v.at <= plan.assignments@.len(),
    ensures
        ({
            let now = passed_over(v, plan, cache, false);
            &&& v.at <= now.at <= plan.assignments@.len()
            &&& v.at <= i < now.at ==> !in_want(plan, cache, 0).contains(i)
            &&& now.at < plan.assignments@.len() ==> now.task == RefreshTask::Inspect && in_want(
                plan,
                cache,
                0,
            ).contains(now.at as int)
            &&& now.at == plan.assignments@.len() ==> now.task == RefreshTask::Finished
            &&& now.refreshed == v.refreshed
            &&& now.skipped == v.skipped
        }),
    decreases plan.assignments@.len() - v.at,
{
    let at = v.at as int;
    if at < plan.assignments@.len() && !wants_something(plan, cache, at) {
        no_document_in_want_is_passed_over(RefreshView { at: v.at + 1, ..v }, plan, cache, i);
    }
}

/// A document is copied anew from its source and then written, in this order; what
/// was filed before is cleared away first. A source that is gone is passed by.
pub proof fn documents_are_copied_and_then_written(
    v: RefreshView,
    plan: Plan,
    cache: Map<Seq<char>, Seq<EntryView>>,
    event: RefreshEvent,
)
    requires
        v.at < plan.assignments@.len(),
    ensures
        ({
            let now = refresh_step(v, plan, cache, event);
            &&& now.task == RefreshTask::Write && v.task != RefreshTask::Write ==> v.task
                == RefreshTask::Copy && event is Copied
            &&& now.task == RefreshTask::Copy && v.task != RefreshTask::Copy ==> (v.task
                == RefreshTask::Clear && event is Cleared) || (v.task
                == (RefreshTask::MakeParent { there: false }) && event is ParentMade)
            &&& v.task == RefreshTask::Inspect ==> (event matches RefreshEvent::Inspected {
                source_exists,
                dest_exists,
            } ==> if source_exists {
                now == (RefreshView {
                    task: RefreshTask::MakeParent { there: dest_exists },
                    ..v
                })
            } else {
                now.at > v.at && now.skipped.len() == v.skipped.len() + 1 && now.refreshed
                    == v.refreshed
            })
            &&& now.refreshed > v.refreshed ==> v.task == RefreshTask::Write && (
            event matches RefreshEvent::Written(Ok(_)))
        }),
{
    let next = RefreshView { at: v.at + 1, ..v };
    match (v.task, event) {
        (RefreshTask::Write, RefreshEvent::Written(Ok(done))) => {
            no_document_in_want_is_passed_over(
                RefreshView {
                    at: v.at + 1,
                    refreshed: v.refreshed + 1,
                    stamped: v.stamped + one_if(done.stamped),
                    indexed: v.indexed + one_if(done.bookmarks > 0),
                    bookmarks: v.bookmarks + done.bookmarks as nat,
                    skipped: match done.outline_skipped {
                        Some(why) => v.skipped.push((filed_at(plan, v.at as int), why@)),
                        None => v.skipped,
                    },
                    ..v
                },
                plan,
                cache,
                0,
            );
        },
        (_, RefreshEvent::Failed(why)) => {
            lemma_passed_by(v, plan, cache, why@);
        },
        (_, RefreshEvent::Written(Err(why))) => {
            lemma_passed_by(v, plan, cache, why@);
        },
        (RefreshTask::Inspect, RefreshEvent::Inspected { source_exists, dest_exists }) => {
            lemma_passed_by(v, plan, cache, SOURCE_MISSING@);
        },
        _ => {},
    }
}

proof fn lemma_passed_by(
    v: RefreshView,
    plan: Plan,
    cache: Map<Seq<char>, Seq<EntryView>>,
    why: Seq<char>,
)
    requires
        v.at < plan.assignments@.len(),
    ensures
        ({
            let now = passed_by(v, plan, cache, why);
            &&& now.at > v.at
            &&& now.task == RefreshTask::Inspect || now.task == RefreshTask::Finished
            &&& now.refreshed == v.refreshed
            &&& now.skipped == v.skipped.push((filed_at(plan, v.at as int), why))
        }),
{
    no_document_in_want_is_passed_over(
        RefreshView {
            at: v.at + 1,
            skipped: v.skipped.push((filed_at(plan, v.at as int), why)),
            ..v
        },
        plan,
        cache,
        0,
    );
}

/// Refreshing under way.
pub struct Refreshing {
    at: usize,
    task: RefreshTask,
    outcome: Outcome,
}

impl View for Refreshing {
    type V = RefreshView;

    closed spec fn view(&self) -> RefreshView {
        RefreshView {
            at: self.at as nat,
            task: self.task,
            refreshed: self.outcome.refreshed as nat,
            stamped: self.outcome.stamped as nat,
            indexed: self.outcome.indexed as nat,
            bookmarks: self.outcome.bookmarks as nat,
            skipped: apply::note_views(self.outcome.skipped@),
        }
    }
}

/// Whether the counts are within reach of the documents so far.
pub open spec fn counts_fit(v: RefreshView) -> bool {
    v.refreshed <= v.at && v.stamped <= v.at && v.indexed <= v.at
}

impl Refreshing {
    /// Begin with the first document that has to be rewritten.
    pub fn new(plan: &Plan, cache: &OutlineCache, dry_run: bool) -> (r: Self)
        requires
            dry_run ==> wanted_bookmarks(*plan, cache@, 0) <= usize::MAX,
        ensures
            r@ == passed_over(
                RefreshView {
                    at: 0,
                    task: RefreshTask::Finished,
                    refreshed: 0,
                    stamped: 0,
                    indexed: 0,
                    bookmarks: 0,
                    skipped: seq![],
                },
                *plan,
                cache@,
                dry_run,
            ),
            counts_fit(r@),
    {
        let mut run = Refreshing {
            at: 0,
            task: RefreshTask::Finished,
            outcome: Outcome::default(),
        };
        assert(run@.skipped =~= seq![]);
        run.pass_over(plan, cache, dry_run);
        run
    }

    fn pass_over(&mut self, plan: &Plan, cache: &OutlineCache, dry_run: bool)
        requires
            counts_fit(old(self)@),
            dry_run ==> old(self)@.bookmarks + wanted_bookmarks(
                *plan,
                cache@,
                old(self)@.at as int,
            ) <= usize::MAX,
        ensures
            final(self)@ == passed_over(old(self)@, *plan, cache@, dry_run),
            counts_fit(final(self)@),
    {
        let total: usize = plan.assignments.len();
        while self.at < total
            invariant
                total == plan.assignments@.len(),
                counts_fit(self@),
                dry_run ==> self@.bookmarks + wanted_bookmarks(*plan, cache@, self@.at as int)
                    <= usize::MAX,
                passed_over(self@, *plan, cache@, dry_run) == passed_over(
                    old(self)@,
                    *plan,
                    cache@,
                    dry_run,
                ),
            decreases total - self.at,
        {
            let ghost v = self@;
            let wanted = wanted_for(&plan.assignments[self.at], cache);
            assert(opt_list(wanted.outline) == outline_for(*plan, cache@, v.at as int));
            if !wanted.is_nothing() {
                if !dry_run {
                    self.task = RefreshTask::Inspect;
                    return;
                }
                self.outcome.would(&wanted);
            }
            self.at = self.at + 1;
        }
        self.task = RefreshTask::Finished;
    }

    /// What to do next.
    pub fn task(&self) -> (r: RefreshTask)
        ensures
            r == self@.task,
    {
        self.task
    }

    /// The document in hand, by its place in the plan.
    pub fn at(&self) -> (r: usize)
        ensures
            r == self@.at,
    {
        self.at
    }

    /// Take in what became of the document in hand, and go on to the next that
    /// has to be written anew.
    fn settle(&mut self, plan: &Plan, cache: &OutlineCache, result: Result<Enriched, String>)
        requires
            counts_fit(old(self)@),
            old(self)@.at < plan.assignments@.len(),
            result matches Ok(done) ==> old(self)@.bookmarks + done.bookmarks <= usize::MAX,
        ensures
            final(self)@ == (match result {
                Ok(done) => counted(old(self)@, *plan, cache@, done),
                Err(why) => passed_by(old(self)@, *plan, cache@, why@),
            }),
            counts_fit(final(self)@),
    {
        let total: usize = plan.assignments.len();
        assert(self.at < total);
        let dest = join_paths(
            plan.library_root.as_str(),
            plan.assignments[self.at].dest.as_str(),
        );
        self.outcome.settle(dest.as_str(), result);
        self.at = self.at + 1;
        self.pass_over(plan, cache, false);
    }

    /// Take in what came of the task in hand, and go on.
    pub fn take(&mut self, plan: &Plan, cache: &OutlineCache, event: RefreshEvent)
        requires
            counts_fit(old(self)@),
            event matches RefreshEvent::Written(Ok(done)) ==> old(self)@.bookmarks + done.bookmarks
                <= usize::MAX,
        ensures
            final(self)@ == refresh_step(old(self)@, *plan, cache@, event),
            counts_fit(final(self)@),
    {
        if self.at >= plan.assignments.len() {
            return;
        }
        match (self.task, event) {
            (RefreshTask::Inspect, RefreshEvent::Inspected { source_exists, dest_exists }) => {
                if source_exists {
                    self.task = RefreshTask::MakeParent { there: dest_exists };
                } else {
                    self.settle(plan, cache, Err(own(SOURCE_MISSING)));
                }
            },
            (RefreshTask::MakeParent { there }, RefreshEvent::ParentMade) => {
                self.task = if there {
                    RefreshTask::Clear
                } else {
                    RefreshTask::Copy
                };
            },
            (RefreshTask::MakeParent { there: _ }, RefreshEvent::Failed(why)) => {
                self.settle(plan, cache, Err(why));
            },
            (RefreshTask::Clear, RefreshEvent::Cleared) => {
                self.task = RefreshTask::Copy;
            },
            (RefreshTask::Clear, RefreshEvent::Failed(why)) => {
                self.settle(plan, cache, Err(why));
            },
            (RefreshTask::Copy, RefreshEvent::Copied) => {
                self.task = RefreshTask::Write;
            },
            (RefreshTask::Copy, RefreshEvent::Failed(why)) => {
                self.settle(plan, cache, Err(why));
            },
            (RefreshTask::Write, RefreshEvent::Written(result)) => {
                self.settle(plan, cache, result);
            },
            _ => {},
        }
    }

    /// What was done, or would be.
    pub fn finish(self) -> (r: Outcome)
        ensures
            r.refreshed == self@.refreshed,
            r.stamped == self@.stamped,
            r.indexed == self@.indexed,
            r.bookmarks == self@.bookmarks,
            apply::note_views(r.skipped@) == self@.skipped,
    {
        self.outcome
    }
}

// ---------------------------------------------------------------------------
// Refreshing writes to no source
// ---------------------------------------------------------------------------

/// Files on a disk: which file each path leads to, by the key of the path, and
/// what each file holds. Several paths lead to one file where there are hard
/// links.
pub struct Disk {
    pub files: Map<Seq<i128>, int>,
    pub bytes: Map<int, Seq<u8>>,
}

/// What is found under a path.
pub open spec fn found_at(disk: Disk, key: Seq<i128>) -> Option<Seq<u8>> {
    if disk.files.contains_key(key) {
        Some(disk.bytes[disk.files[key]])
    } else {
        None
    }
}

/// A disk after a new file has been put under a path, whatever was there.
pub open spec fn with_file(disk: Disk, key: Seq<i128>, fresh: int, bytes: Seq<u8>) -> Disk {
    Disk { files: disk.files.insert(key, fresh), bytes: disk.bytes.insert(fresh, bytes) }
}

/// A disk after a copy: a file that is there already is written into, under
/// whatever other paths it is known.
pub open spec fn with_copy(disk: Disk, source: Seq<i128>, dest: Seq<i128>, fresh: int) -> Disk {
    let bytes = disk.bytes[disk.files[source]];
    if disk.files.contains_key(dest) {
        Disk { bytes: disk.bytes.insert(disk.files[dest], bytes), ..disk }
    } else {
        with_file(disk, dest, fresh, bytes)
    }
}

/// A disk after the task in hand has been done. A new file is known as `fresh`,
/// and `saved` is what is saved if anything is.
pub open spec fn task_done(
    disk: Disk,
    v: RefreshView,
    plan: Plan,
    fresh: int,
    saved: Option<Seq<u8>>,
) -> Disk {
    let source = paths::path_key(plan.assignments@[v.at as int].source@);
    let dest = paths::path_key(filed_at(plan, v.at as int));
    match v.task {
        RefreshTask::Clear => Disk { files: disk.files.remove(dest), ..disk },
        RefreshTask::Copy => with_copy(disk, source, dest, fresh),
        RefreshTask::Write => match saved {
            Some(bytes) => with_file(disk, dest, fresh, bytes),
            None => disk,
        },
        _ => disk,
    }
}

/// Whether refreshing is right about the filed copy: where it takes it to be
/// absent, it is.
pub open spec fn is_right_about(v: RefreshView, plan: Plan, disk: Disk) -> bool {
    v.task == RefreshTask::Copy || v.task == (RefreshTask::MakeParent { there: false })
        ==> !disk.files.contains_key(paths::path_key(filed_at(plan, v.at as int)))
}

/// Whether an event says of the filed copy what is so.
pub open spec fn is_true_of(event: RefreshEvent, v: RefreshView, plan: Plan, disk: Disk) -> bool {
    event matches RefreshEvent::Inspected { source_exists: _, dest_exists } ==> dest_exists
        == disk.files.contains_key(paths::path_key(filed_at(plan, v.at as int)))
}

/// No task changes what is found anywhere but where the document in hand is
/// filed. So a source keeps its bytes, also where the library was made of hard
/// links to it.
pub proof fn refreshing_keeps_every_other_file(
    disk: Disk,
    v: RefreshView,
    plan: Plan,
    fresh: int,
    saved: Option<Seq<u8>>,
    key: Seq<i128>,
)
    requires
        v.at < plan.assignments@.len(),
        is_right_about(v, plan, disk),
        forall|k: Seq<i128>| #[trigger] disk.files.contains_key(k) ==> disk.files[k] != fresh,
        key != paths::path_key(filed_at(plan, v.at as int)),
    ensures
        found_at(task_done(disk, v, plan, fresh, saved), key) == found_at(disk, key),
{
}

proof fn lemma_passed_over_starts_anew(
    v: RefreshView,
    plan: Plan,
    cache: Map<Seq<char>, Seq<EntryView>>,
)
    ensures
        passed_over(v, plan, cache, false).task is Inspect || passed_over(
            v,
            plan,
            cache,
            false,
        ).task is Finished,
    decreases plan.assignments@.len() - v.at,
{
    if v.at < plan.assignments@.len() && !wants_something(plan, cache, v.at as int) {
        lemma_passed_over_starts_anew(RefreshView { at: v.at + 1, ..v }, plan, cache);
    }
}

/// A copy is asked for only while nothing is where the document is filed: what
/// refreshing takes for absent stays so from one task to the next, as long as it
/// is told what is so and nobody else puts files there.
pub proof fn a_copy_waits_for_a_clear_place(
    disk: Disk,
    v: RefreshView,
    plan: Plan,
    cache: Map<Seq<char>, Seq<EntryView>>,
    event: RefreshEvent,
    fresh: int,
    saved: Option<Seq<u8>>,
)
    requires
        v.at < plan.assignments@.len(),
        is_right_about(v, plan, disk),
        is_true_of(event, v, plan, disk),
    ensures
        ({
            let now = refresh_step(v, plan, cache, event);
            &&& now != v ==> is_right_about(now, plan, task_done(disk, v, plan, fresh, saved))
            &&& now == v ==> is_right_about(now, plan, disk)
        }),
{
    let now = refresh_step(v, plan, cache, event);
    match (v.task, event) {
        (RefreshTask::Write, RefreshEvent::Written(Ok(done))) => {
            let next = RefreshView {
                at: v.at + 1,
                refreshed: v.refreshed + 1,
                stamped: v.stamped + one_if(done.stamped),
                indexed: v.indexed + one_if(done.bookmarks > 0),
                bookmarks: v.bookmarks + done.bookmarks as nat,
                skipped: match done.outline_skipped {
                    Some(why) => v.skipped.push((filed_at(plan, v.at as int), why@)),
                    None => v.skipped,
                },
                ..v
            };
            lemma_passed_over_starts_anew(next, plan, cache);
        },
        _ => {
            let why = match event {
                RefreshEvent::Failed(why) => why@,
                RefreshEvent::Written(Err(why)) => why@,
                _ => SOURCE_MISSING@,
            };
            let next = RefreshView {
                at: v.at + 1,
                skipped: v.skipped.push((filed_at(plan, v.at as int), why)),
                ..v
            };
            lemma_passed_over_starts_anew(next, plan, cache);
        },
    }
}

} // verus!
