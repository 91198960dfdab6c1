//! Building chapter indexes, document by document.
//!
//! Counting pages, loading documents and reading their layout is left to the
//! caller. Here it is decided what is asked next, and what comes of the answers.

use lopdf::Document;
use crate::apply;
use crate::apply::push_note;
use crate::brain;
use crate::brain::Brain;
use crate::config::BookmarksConfig;
use crate::outline;
use crate::outline::{Candidate, CandidateView, Entry, EntryView, Skip, may_index, nest, parse};
use crate::pdf;
use crate::table::TextMap;
use crate::text;
use crate::text::own;
use crate::types::Plan;
use vstd::prelude::*;

verus! {

// ---------------------------------------------------------------------------
// One document
// ---------------------------------------------------------------------------

/// How many pages a document has. One whose pages could not be counted has none.
pub open spec fn page_number(pages: Option<usize>) -> usize {
    match pages {
        Some(n) => n,
        None => 0,
    }
}

/// Whether a document is long enough to be worth an index.
pub fn check_pages(pages: Option<usize>, min_pages: usize) -> (r: Result<(), Skip>)
    ensures
        r == (if page_number(pages) < min_pages {
            Err::<(), Skip>(Skip::TooShort { pages: page_number(pages) })
        } else {
            Ok::<(), Skip>(())
        }),
        pages matches Some(n) ==> (r is Ok <==> n >= min_pages),
        pages is None ==> (r is Ok <==> min_pages == 0),
{
    let n: usize = match pages {
        Some(n) => n,
        None => 0,
    };
    if n < min_pages {
        return Err(Skip::TooShort { pages: n });
    }
    Ok(())
}

/// The index that type sizes suggest.
pub fn suggested_entries(found: &Vec<Candidate>, max_depth: usize) -> (r: Result<Vec<Entry>, Skip>)
    ensures
        match r {
            Ok(v) => found@.len() > 0 && outline::entry_views(v@) == outline::nested(
                outline::candidate_views(found@),
                max_depth,
            ),
            Err(skip) => found@.len() == 0 && skip == Skip::NoHeadings,
        },
{
    if found.len() == 0 {
        return Err(Skip::NoHeadings);
    }
    Ok(nest(found.as_slice(), max_depth))
}

/// The lines that a backend is shown: numbered, with their pages.
pub open spec fn are_lines(v: Seq<EntryView>, lines: Seq<(usize, String, usize)>) -> bool {
    &&& lines.len() == v.len()
    &&& forall|i: int|
        0 <= i < lines.len() ==> (#[trigger] lines[i]).0 == i && lines[i].1@ == v[i].title
            && lines[i].2 == v[i].page
}

pub fn lines_for(entries: &Vec<Entry>) -> (r: Vec<(usize, String, usize)>)
    ensures
        are_lines(outline::entry_views(entries@), r@),
{
    let ghost all = outline::entry_views(entries@);
    let mut out: Vec<(usize, String, usize)> = Vec::new();
    let mut i: usize = 0;
    while i < entries.len()
        invariant
            all == outline::entry_views(entries@),
            i <= entries@.len(),
            out@.len() == i,
            forall|j: int|
                0 <= j < i ==> (#[trigger] out@[j]).0 == j && out@[j].1@ == all[j].title
                    && out@[j].2 == all[j].page,
        decreases entries@.len() - i,
    {
        out.push((i, entries[i].title.clone(), entries[i].page));
        i = i + 1;
    }
    out
}

/// The entries that a backend picked, at the levels it gave them. A pick that
/// names no entry is dropped.
pub open spec fn picked(v: Seq<EntryView>, picks: Seq<(usize, usize)>) -> Seq<EntryView>
    decreases picks.len(),
{
    if picks.len() == 0 {
        seq![]
    } else {
        let before = picked(v, picks.drop_last());
        let (i, level) = picks.last();
        if i < v.len() {
            before.push(EntryView { level, ..v[i as int] })
        } else {
            before
        }
    }
}

/// Picks that all name an entry give one heading each, in the order of the picks: the
/// title and page of the entry, at the level of the pick.
pub proof fn picks_set_levels(v: Seq<EntryView>, picks: Seq<(usize, usize)>, k: int)
    requires
        forall|j: int| 0 <= j < picks.len() ==> (#[trigger] picks[j]).0 < v.len(),
        0 <= k < picks.len(),
    ensures
        picked(v, picks).len() == picks.len(),
        picked(v, picks)[k].title == v[picks[k].0 as int].title,
        picked(v, picks)[k].page == v[picks[k].0 as int].page,
        picked(v, picks)[k].level == picks[k].1,
    decreases picks.len(),
{
    let front = picks.drop_last();
    assert(picks[picks.len() - 1].0 < v.len());
    if front.len() > 0 {
        assert forall|j: int| 0 <= j < front.len() implies (#[trigger] front[j]).0 < v.len() by {
            assert(picks[j].0 < v.len());
        }
        if k < front.len() {
            picks_set_levels(v, front, k);
        } else {
            picks_set_levels(v, front, 0);
        }
    } else {
        assert(picked(v, front).len() == 0);
    }
}

/// The index once a backend has been asked: what it picked, if it picked
/// anything, and otherwise what type sizes suggested.
pub open spec fn refined(
    v: Seq<EntryView>,
    outcome: Result<Option<Vec<(usize, usize)>>, String>,
) -> Seq<EntryView> {
    match outcome {
        Ok(Some(picks)) => if picks@.len() > 0 {
            picked(v, picks@)
        } else {
            v
        },
        _ => v,
    }
}

pub fn apply_picks(
    entries: Vec<Entry>,
    outcome: &Result<Option<Vec<(usize, usize)>>, String>,
) -> (r: Vec<Entry>)
    ensures
        outline::entry_views(r@) == refined(outline::entry_views(entries@), *outcome),
        outcome is Err ==> r == entries,
        outcome matches Ok(None) ==> r == entries,
        outcome matches Ok(Some(picks)) ==> (picks@.len() == 0 ==> r == entries),
{
    let ghost all = outline::entry_views(entries@);
    match outcome {
        Ok(Some(picks)) => {
            if picks.len() == 0 {
                return entries;
            }
            let mut out: Vec<Entry> = Vec::new();
            let mut k: usize = 0;
            assert(picks@.take(0) =~= Seq::<(usize, usize)>::empty());
            assert(outline::entry_views(out@) =~= Seq::<EntryView>::empty());
            while k < picks.len()
                invariant
                    all == outline::entry_views(entries@),
                    k <= picks@.len(),
                    outline::entry_views(out@) == picked(all, picks@.take(k as int)),
                decreases picks@.len() - k,
            {
                assert(picks@.take(k + 1).drop_last() =~= picks@.take(k as int));
                let (i, level) = picks[k];
                if i < entries.len() {
                    let e = Entry {
                        level,
                        title: entries[i].title.clone(),
                        page: entries[i].page,
                    };
                    let ghost before = out@;
                    out.push(e);
                    assert(outline::entry_views(out@) =~= outline::entry_views(before).push(e@));
                }
                k = k + 1;
            }
            assert(picks@.take(k as int) =~= picks@);
            out
        },
        _ => entries,
    }
}

/// The lines that a backend is shown, as text and numbers.
pub open spec fn shown_lines(v: Seq<EntryView>) -> Seq<(usize, Seq<char>, usize)> {
    Seq::new(v.len(), |i: int| (i as usize, v[i].title, v[i].page))
}

/// Whether some entries are what a backend made of others when it was asked
/// about all of them.
pub open spec fn are_judged<B: Brain>(
    before: B,
    after: B,
    v: Seq<EntryView>,
    max_depth: usize,
    r: Seq<EntryView>,
) -> bool {
    exists|outcome: Result<Option<Vec<(usize, usize)>>, String>| #[trigger]
        B::refines(before, shown_lines(v), max_depth, after, outcome) && refined(v, outcome) == r
}

/// Have a backend judge which headings are real chapters. Whatever it answers,
/// every entry is one that was suggested, perhaps at another level.
pub fn refine_entries<B: Brain>(brain: &mut B, entries: Vec<Entry>, max_depth: usize) -> (r: Vec<
    Entry,
>)
    ensures
        are_judged(
            *old(brain),
            *final(brain),
            outline::entry_views(entries@),
            max_depth,
            outline::entry_views(r@),
        ),
{
    let lines = lines_for(&entries);
    assert(brain::line_views(lines@) =~= shown_lines(outline::entry_views(entries@)));
    let outcome = brain.refine_headings(&lines, max_depth);
    apply_picks(entries, &outcome)
}

/// A backend cannot invent a heading: whatever it picks, every title stands in
/// the index with a page that was read with it.
pub proof fn no_heading_is_invented(v: Seq<EntryView>, picks: Seq<(usize, usize)>, k: int)
    requires
        0 <= k < picked(v, picks).len(),
    ensures
        exists|i: int|
            0 <= i < v.len() && (#[trigger] v[i]).title == picked(v, picks)[k].title && v[i].page
                == picked(v, picks)[k].page,
    decreases picks.len(),
{
    let before = picked(v, picks.drop_last());
    let (i, level) = picks.last();
    if k < before.len() {
        no_heading_is_invented(v, picks.drop_last(), k);
    } else {
        assert(v[i as int].title == picked(v, picks)[k].title);
    }
}


// ---------------------------------------------------------------------------
// A whole library
// ---------------------------------------------------------------------------

/// How a library is to be indexed.
#[derive(Clone, Copy)]
pub struct IndexOptions {
    /// Documents shorter than this are left alone.
    pub min_pages: usize,
    /// How much larger than body text a heading must be set.
    pub min_ratio: u32,
    pub max_depth: usize,
    /// Rebuild the index of documents that have one.
    pub force: bool,
    /// Only say what would be done.
    pub dry_run: bool,
}

/// What is to be done next about the file in hand.
#[derive(Debug, Clone, Copy, PartialEq, Eq, Structural)]
pub enum IndexTask {
    CountPages,
    /// Load it, to find out whether it can be written at all: reading the
    /// headings of one that cannot would waste the whole effort.
    Load,
    ReadHeadings,
    /// Write the entries into it.
    Write,
    Finished,
}

/// Where indexing stands.
pub struct IndexView {
    /// The file in hand.
    pub at: nat,
    pub task: IndexTask,
    /// The entries to write into it.
    pub entries: Seq<EntryView>,
    pub indexed: nat,
    pub bookmarks: nat,
    pub skipped: Seq<(Seq<char>, Seq<char>)>,
}

/// On to the next file.
pub open spec fn next_file(v: IndexView, files: Seq<Seq<char>>) -> IndexView {
    IndexView {
        at: v.at + 1,
        task: if v.at + 1 < files.len() {
            IndexTask::CountPages
        } else {
            IndexTask::Finished
        },
        ..v
    }
}

/// The file in hand is left alone.
pub open spec fn left_alone(v: IndexView, files: Seq<Seq<char>>, why: Seq<char>) -> IndexView {
    next_file(IndexView { skipped: v.skipped.push((files[v.at as int], why)), ..v }, files)
}

/// The file in hand gets, or would get, a number of bookmarks.
pub open spec fn given_index(v: IndexView, files: Seq<Seq<char>>, n: nat) -> IndexView {
    next_file(IndexView { indexed: v.indexed + 1, bookmarks: v.bookmarks + n, ..v }, files)
}

pub open spec fn after_counting(
    v: IndexView,
    files: Seq<Seq<char>>,
    opts: IndexOptions,
    pages: Option<usize>,
) -> IndexView {
    if v.task != IndexTask::CountPages {
        v
    } else if page_number(pages) < opts.min_pages {
        left_alone(v, files, Skip::TooShort { pages: page_number(pages) }.reason())
    } else {
        IndexView { task: IndexTask::Load, ..v }
    }
}

pub open spec fn after_loading(
    v: IndexView,
    files: Seq<Seq<char>>,
    opts: IndexOptions,
    doc: Result<&Document, String>,
) -> IndexView {
    if v.task != IndexTask::Load {
        v
    } else {
        match doc {
            Ok(doc) => match outline::obstacle(*doc, opts.force) {
                Some(skip) => left_alone(v, files, skip.reason()),
                None => IndexView { task: IndexTask::ReadHeadings, ..v },
            },
            Err(why) => left_alone(v, files, Skip::Unreadable(why).reason()),
        }
    }
}

/// The headings in the layout of a document.
pub open spec fn headings_in(xml: Seq<char>, min_ratio: u32) -> Seq<CandidateView> {
    outline::headings_of(outline::layout_runs(xml), min_ratio)
}

/// After the layout of the file in hand was read, and its entries are those that
/// were suggested, or what a backend made of them.
pub open spec fn after_reading(
    v: IndexView,
    files: Seq<Seq<char>>,
    opts: IndexOptions,
    layout: Result<Seq<char>, Seq<char>>,
    entries: Seq<EntryView>,
) -> IndexView {
    if v.task != IndexTask::ReadHeadings {
        v
    } else {
        match layout {
            Ok(xml) => if headings_in(xml, opts.min_ratio).len() == 0 {
                left_alone(v, files, Skip::NoHeadings.reason())
            } else if opts.dry_run {
                given_index(v, files, entries.len())
            } else {
                IndexView { task: IndexTask::Write, entries, ..v }
            },
            Err(why) => left_alone(v, files, why),
        }
    }
}

pub open spec fn after_writing(
    v: IndexView,
    files: Seq<Seq<char>>,
    outcome: Result<usize, Skip>,
) -> IndexView {
    if v.task != IndexTask::Write {
        v
    } else {
        match outcome {
            Ok(n) => given_index(v, files, n as nat),
            Err(skip) => left_alone(v, files, skip.reason()),
        }
    }
}

/// What holds of indexing at every moment: each file before the one in hand was
/// indexed or left alone.
pub open spec fn keeps_account(v: IndexView, files: Seq<Seq<char>>) -> bool {
    &&& v.at <= files.len()
    &&& v.task == IndexTask::Finished <==> v.at == files.len()
    &&& v.indexed + v.skipped.len() == v.at
    &&& v.bookmarks <= v.at * usize::MAX
}

pub open spec fn layout_view(layout: Result<&str, String>) -> Result<Seq<char>, Seq<char>> {
    match layout {
        Ok(xml) => Ok(xml@),
        Err(why) => Err(why@),
    }
}

/// What becomes of the headings of a document: a backend judges them, and without
/// one they stay as type sizes suggest.
pub open spec fn may_become<B: Brain>(
    suggested: Seq<EntryView>,
    before: Option<B>,
    after: Option<B>,
    max_depth: usize,
    entries: Seq<EntryView>,
) -> bool {
    match (before, after) {
        (Some(b), Some(a)) => are_judged(b, a, suggested, max_depth, entries),
        (None, None) => entries == suggested,
        _ => false,
    }
}

/// Whether entries are what comes of a layout. A backend is asked only where
/// headings stand out in it.
pub open spec fn reads_as<B: Brain>(
    layout: Result<Seq<char>, Seq<char>>,
    min_ratio: u32,
    max_depth: usize,
    before: Option<B>,
    after: Option<B>,
    entries: Seq<EntryView>,
) -> bool {
    match layout {
        Ok(xml) => if headings_in(xml, min_ratio).len() > 0 {
            may_become(
                outline::nested(headings_in(xml, min_ratio), max_depth),
                before,
                after,
                max_depth,
                entries,
            )
        } else {
            after == before
        },
        Err(_) => after == before,
    }
}

/// The index of a document from its layout, judged by a backend if there is one.
/// Nothing if no heading stands out.
pub fn index_from<B: Brain>(
    xml: &str,
    min_ratio: u32,
    max_depth: usize,
    brain: &mut Option<B>,
) -> (r: Option<Vec<Entry>>)
    ensures
        headings_in(xml@, min_ratio).len() == 0 ==> r is None && *final(brain) == *old(brain),
        headings_in(xml@, min_ratio).len() > 0 ==> (r matches Some(v) && may_become(
            outline::nested(headings_in(xml@, min_ratio), max_depth),
            *old(brain),
            *final(brain),
            max_depth,
            outline::entry_views(v@),
        )),
{
    let found = parse(xml, min_ratio);
    assert(outline::candidate_views(found@).len() == found@.len());
    let entries = match suggested_entries(&found, max_depth) {
        Ok(entries) => entries,
        Err(_) => {
            return None;
        },
    };
    match brain {
        Some(b) => Some(refine_entries(b, entries, max_depth)),
        None => Some(entries),
    }
}

/// The files that are indexed: all that were found, or as many as a limit allows.
/// There have to be some.
pub fn files_to_index(found: Vec<String>, limit: Option<usize>, library: &str) -> (r: Result<
    Vec<String>,
    String,
>)
    ensures
        match r {
            Ok(files) => found@.len() > 0 && text::texts(files@) == match limit {
                Some(n) => if n < found@.len() {
                    text::texts(found@).take(n as int)
                } else {
                    text::texts(found@)
                },
                None => text::texts(found@),
            },
            Err(why) => found@.len() == 0 && why@ == "no PDFs under "@ + library@
                + "; run `sorting-hat apply` first"@,
        },
{
    if found.len() == 0 {
        let mut why = own("no PDFs under ");
        why.append(library);
        why.append("; run `sorting-hat apply` first");
        return Err(why);
    }
    let ghost all = found@;
    let mut files = found;
    if let Some(n) = limit {
        if n < files.len() {
            files.truncate(n);
            assert(text::texts(files@) =~= text::texts(all).take(n as int));
        }
    }
    Ok(files)
}

impl IndexOptions {
    /// What the settings say, but for the least number of pages if another is
    /// asked for.
    pub fn of(cfg: &BookmarksConfig, min_pages: Option<usize>, force: bool, dry_run: bool) -> (r: Self)
        ensures
            r == (IndexOptions {
                min_pages: match min_pages {
                    Some(n) => n,
                    None => cfg.min_pages,
                },
                min_ratio: cfg.min_ratio,
                max_depth: cfg.max_depth,
                force,
                dry_run,
            }),
    {
        IndexOptions {
            min_pages: match min_pages {
                Some(n) => n,
                None => cfg.min_pages,
            },
            min_ratio: cfg.min_ratio,
            max_depth: cfg.max_depth,
            force,
            dry_run,
        }
    }
}

/// Indexing under way.
pub struct Indexing {
    files: Vec<String>,
    opts: IndexOptions,
    at: usize,
    task: IndexTask,
    entries: Vec<Entry>,
    indexed: usize,
    bookmarks: u128,
    skipped: Vec<(String, String)>,
}

impl View for Indexing {
    type V = IndexView;

    closed spec fn view(&self) -> IndexView {
        IndexView {
            at: self.at as nat,
            task: self.task,
            entries: outline::entry_views(self.entries@),
            indexed: self.indexed as nat,
            bookmarks: self.bookmarks as nat,
            skipped: apply::note_views(self.skipped@),
        }
    }
}

impl Indexing {
    pub closed spec fn paths(self) -> Seq<Seq<char>> {
        text::texts(self.files@)
    }

    pub closed spec fn options(self) -> IndexOptions {
        self.opts
    }

    pub fn new(files: Vec<String>, opts: IndexOptions) -> (r: Self)
        ensures
            r@ == (IndexView {
                at: 0,
                task: if files@.len() > 0 {
                    IndexTask::CountPages
                } else {
                    IndexTask::Finished
                },
                entries: seq![],
                indexed: 0,
                bookmarks: 0,
                skipped: seq![],
            }),
            r.paths() == text::texts(files@),
            r.options() == opts,
            keeps_account(r@, r.paths()),
    {
        let task = if files.len() > 0 {
            IndexTask::CountPages
        } else {
            IndexTask::Finished
        };
        let run = Indexing {
            files,
            opts,
            at: 0,
            task,
            entries: Vec::new(),
            indexed: 0,
            bookmarks: 0,
            skipped: Vec::new(),
        };
        assert(run@.entries =~= seq![]);
        assert(run@.skipped =~= seq![]);
        run
    }

    /// What to do next.
    pub fn task(&self) -> (r: IndexTask)
        ensures
            r == self@.task,
    {
        self.task
    }

    /// The file in hand.
    pub fn file(&self) -> (r: Option<&String>)
        ensures
            match r {
                Some(f) => self@.at < self.paths().len() && f@ == self.paths()[self@.at as int],
                None => self@.at >= self.paths().len(),
            },
    {
        if self.at < self.files.len() {
            Some(&self.files[self.at])
        } else {
            None
        }
    }

    /// The entries to write into the file in hand.
    pub fn entries(&self) -> (r: &Vec<Entry>)
        ensures
            outline::entry_views(r@) == self@.entries,
    {
        &self.entries
    }

    pub fn is_dry(&self) -> (r: bool)
        ensures
            r == self.options().dry_run,
    {
        self.opts.dry_run
    }

    /// How many documents were indexed, with how many bookmarks, and which were
    /// left alone.
    pub fn tally(&self) -> (r: (usize, u128, &Vec<(String, String)>))
        ensures
            r.0 == self@.indexed,
            r.1 == self@.bookmarks,
            apply::note_views(r.2@) == self@.skipped,
    {
        (self.indexed, self.bookmarks, &self.skipped)
    }

    fn advance(&mut self)
        requires
            old(self)@.at < old(self).paths().len(),
        ensures
            final(self)@ == next_file(old(self)@, old(self).paths()),
            final(self).paths() == old(self).paths(),
            final(self).options() == old(self).options(),
    {
        let total: usize = self.files.len();
        self.at = self.at + 1;
        self.task = if self.at < total {
            IndexTask::CountPages
        } else {
            IndexTask::Finished
        };
    }

    fn leave_alone(&mut self, why: &str)
        requires
            old(self)@.at < old(self).paths().len(),
        ensures
            final(self)@ == left_alone(old(self)@, old(self).paths(), why@),
            final(self).paths() == old(self).paths(),
            final(self).options() == old(self).options(),
    {
        let file = self.files[self.at].clone();
        push_note(&mut self.skipped, file.as_str(), why);
        self.advance();
    }

    fn give_index(&mut self, n: usize)
        requires
            old(self)@.at < old(self).paths().len(),
            keeps_account(old(self)@, old(self).paths()),
        ensures
            final(self)@ == given_index(old(self)@, old(self).paths(), n as nat),
            final(self).paths() == old(self).paths(),
            final(self).options() == old(self).options(),
    {
        let total: usize = self.files.len();
        assert(self.bookmarks + n <= u128::MAX) by {
            let at = self.at as int;
            assert(at * usize::MAX <= usize::MAX * usize::MAX) by (nonlinear_arith)
                requires
                    0 <= at <= usize::MAX,
            ;
            assert(usize::MAX * usize::MAX <= 0xffff_ffff_ffff_ffff * 0xffff_ffff_ffff_ffff)
                by (nonlinear_arith)
                requires
                    usize::MAX <= 0xffff_ffff_ffff_ffff,
            ;
        }
        self.indexed = self.indexed + 1;
        self.bookmarks = self.bookmarks + n as u128;
        self.advance();
    }

    /// Take in how many pages the file in hand has.
    pub fn counted(&mut self, pages: Option<usize>)
        requires
            keeps_account(old(self)@, old(self).paths()),
        ensures
            final(self)@ == after_counting(
                old(self)@,
                old(self).paths(),
                old(self).options(),
                pages,
            ),
            old(self)@.task == IndexTask::CountPages ==> if (pages is Some && pages->0
                >= old(self).options().min_pages) || old(self).options().min_pages == 0 {
                final(self)@ == (IndexView { task: IndexTask::Load, ..old(self)@ })
            } else {
                &&& final(self)@.at == old(self)@.at + 1
                &&& final(self)@.skipped.len() == old(self)@.skipped.len() + 1
                &&& final(self)@.skipped.last().0 == old(self).paths()[old(self)@.at as int]
                &&& final(self)@.indexed == old(self)@.indexed
            },
            final(self).paths() == old(self).paths(),
            final(self).options() == old(self).options(),
            keeps_account(final(self)@, final(self).paths()),
    {
        match self.task {
            IndexTask::CountPages => {
                match check_pages(pages, self.opts.min_pages) {
                    Ok(_) => {
                        self.task = IndexTask::Load;
                    },
                    Err(skip) => {
                        proof {
                            lemma_room(old(self)@);
                        }
                        self.leave_alone(skip.message().as_str());
                    },
                }
            },
            _ => {},
        }
    }

    /// Take in the file in hand, or why it could not be loaded.
    pub fn loaded(&mut self, doc: Result<&Document, String>)
        requires
            keeps_account(old(self)@, old(self).paths()),
        ensures
            final(self)@ == after_loading(
                old(self)@,
                old(self).paths(),
                old(self).options(),
                doc,
            ),
            old(self)@.task == IndexTask::Load ==> if (doc matches Ok(d) && !pdf::encrypted(*d)
                && (old(self).options().force || !outline::holds_outline(
                pdf::objects_of(*d),
                pdf::trailer_of(*d),
            ))) {
                final(self)@ == (IndexView { task: IndexTask::ReadHeadings, ..old(self)@ })
            } else {
                &&& final(self)@.at == old(self)@.at + 1
                &&& final(self)@.skipped.len() == old(self)@.skipped.len() + 1
                &&& final(self)@.indexed == old(self)@.indexed
            },
            final(self).paths() == old(self).paths(),
            final(self).options() == old(self).options(),
            keeps_account(final(self)@, final(self).paths()),
    {
        match self.task {
            IndexTask::Load => {
                proof {
                    lemma_room(old(self)@);
                }
                match doc {
                    Ok(doc) => match may_index(doc, self.opts.force) {
                        Ok(_) => {
                            self.task = IndexTask::ReadHeadings;
                        },
                        Err(skip) => {
                            self.leave_alone(skip.message().as_str());
                        },
                    },
                    Err(why) => {
                        self.leave_alone(Skip::Unreadable(why).message().as_str());
                    },
                }
            },
            _ => {},
        }
    }

    /// Take in the layout of the file in hand, or why it could not be read, and
    /// have the headings judged by a backend if there is one.
    pub fn read<B: Brain>(&mut self, layout: Result<&str, String>, brain: &mut Option<B>)
        requires
            keeps_account(old(self)@, old(self).paths()),
        ensures
            exists|entries: Seq<EntryView>| #[trigger]
                after_reading(
                    old(self)@,
                    old(self).paths(),
                    old(self).options(),
                    layout_view(layout),
                    entries,
                ) == final(self)@ && if old(self)@.task == IndexTask::ReadHeadings {
                    reads_as(
                        layout_view(layout),
                        old(self).options().min_ratio,
                        old(self).options().max_depth,
                        *old(brain),
                        *final(brain),
                        entries,
                    )
                } else {
                    *final(brain) == *old(brain)
                },
            old(self).options().dry_run && old(self)@.task != IndexTask::Write
                ==> final(self)@.task != IndexTask::Write,
            final(self).paths() == old(self).paths(),
            final(self).options() == old(self).options(),
            keeps_account(final(self)@, final(self).paths()),
    {
        let ghost v = self@;
        let ghost files = self.paths();
        let ghost opts = self.options();
        let ghost said = layout_view(layout);
        proof {
            lemma_room(v);
        }
        match layout {
            Ok(xml) => {
                let ghost suggested = outline::nested(headings_in(xml@, opts.min_ratio), opts.max_depth);
                let reading = match self.task {
                    IndexTask::ReadHeadings => true,
                    _ => false,
                };
                if !reading {
                    assert(after_reading(v, files, opts, said, suggested) == v);
                    return;
                }
                match index_from(xml, self.opts.min_ratio, self.opts.max_depth, brain) {
                    None => {
                        self.leave_alone(Skip::NoHeadings.message().as_str());
                        assert(after_reading(v, files, opts, said, suggested) == self@);
                    },
                    Some(entries) => {
                        let ghost list = outline::entry_views(entries@);
                        assert(list.len() == entries@.len());
                        if self.opts.dry_run {
                            self.give_index(entries.len());
                        } else {
                            self.entries = entries;
                            self.task = IndexTask::Write;
                        }
                        assert(after_reading(v, files, opts, said, list) == self@);
                    },
                }
            },
            Err(why) => {
                match self.task {
                    IndexTask::ReadHeadings => {
                        self.leave_alone(why.as_str());
                    },
                    _ => {},
                }
                assert(after_reading(v, files, opts, said, seq![]) == self@);
            },
        }
    }

    /// Take in what became of the file in hand: how many bookmarks it got, or
    /// why it was left alone.
    pub fn written(&mut self, outcome: Result<usize, Skip>)
        requires
            keeps_account(old(self)@, old(self).paths()),
        ensures
            final(self)@ == after_writing(old(self)@, old(self).paths(), outcome),
            final(self).paths() == old(self).paths(),
            final(self).options() == old(self).options(),
            keeps_account(final(self)@, final(self).paths()),
    {
        match self.task {
            IndexTask::Write => {
                proof {
                    lemma_room(old(self)@);
                }
                match outcome {
                    Ok(n) => {
                        self.give_index(n);
                    },
                    Err(skip) => {
                        self.leave_alone(skip.message().as_str());
                    },
                }
            },
            _ => {},
        }
    }
}

/// One more file leaves room for its bookmarks.
proof fn lemma_room(v: IndexView)
    ensures
        (v.at + 1) * usize::MAX == v.at * usize::MAX + usize::MAX,
{
    assert((v.at + 1) * usize::MAX == v.at * usize::MAX + usize::MAX) by (nonlinear_arith);
}

/// Finished indexing has settled every file: each was indexed, or left alone for
/// a reason.
pub proof fn every_file_is_settled(v: IndexView, files: Seq<Seq<char>>)
    requires
        keeps_account(v, files),
        v.task == IndexTask::Finished,
    ensures
        v.indexed + v.skipped.len() == files.len(),
{
}

// ---------------------------------------------------------------------------
// The sources of a plan
// ---------------------------------------------------------------------------

/// What is to be done next about the source in hand.
#[derive(Debug, Clone, Copy, PartialEq, Eq, Structural)]
pub enum PrepareTask {
    CountPages,
    ReadHeadings,
    Finished,
}

/// Where preparing stands.
pub struct PrepareView {
    /// The document in hand.
    pub at: nat,
    pub task: PrepareTask,
    /// The chapter indexes so far, by source.
    pub outlines: Map<Seq<char>, Seq<EntryView>>,
}

/// On to the next document.
pub open spec fn next_source(v: PrepareView, plan: Plan) -> PrepareView {
    PrepareView {
        at: v.at + 1,
        task: if v.at + 1 < plan.assignments@.len() {
            PrepareTask::CountPages
        } else {
            PrepareTask::Finished
        },
        ..v
    }
}

pub open spec fn source_counted(
    v: PrepareView,
    plan: Plan,
    min_pages: usize,
    pages: Option<usize>,
) -> PrepareView {
    if v.task != PrepareTask::CountPages {
        v
    } else if page_number(pages) < min_pages {
        next_source(v, plan)
    } else {
        PrepareView { task: PrepareTask::ReadHeadings, ..v }
    }
}

/// After the layout of the source in hand was read: it gets an index if any
/// entry is left of it.
pub open spec fn source_read(
    v: PrepareView,
    plan: Plan,
    min_ratio: u32,
    layout: Result<Seq<char>, Seq<char>>,
    entries: Seq<EntryView>,
) -> PrepareView {
    if v.task != PrepareTask::ReadHeadings {
        v
    } else {
        match layout {
            Ok(xml) => if headings_in(xml, min_ratio).len() > 0 && entries.len() > 0 {
                next_source(
                    PrepareView {
                        outlines: v.outlines.insert(
                            plan.assignments@[v.at as int].source@,
                            entries,
                        ),
                        ..v
                    },
                    plan,
                )
            } else {
                next_source(v, plan)
            },
            Err(_) => next_source(v, plan),
        }
    }
}

pub open spec fn outlines_by_source(m: Map<Seq<char>, Vec<Entry>>) -> Map<Seq<char>, Seq<EntryView>> {
    m.map_values(|v: Vec<Entry>| outline::entry_views(v@))
}

/// Whether a source is that of a document of a plan.
pub open spec fn is_source(plan: Plan, path: Seq<char>) -> bool {
    exists|i: int| 0 <= i < plan.assignments@.len() && (#[trigger] plan.assignments@[i]).source@ == path
}

/// What holds of preparing at every moment: only sources of the plan have an
/// index, and none is empty.
pub open spec fn prepares(v: PrepareView, plan: Plan) -> bool {
    &&& v.at <= plan.assignments@.len()
    &&& v.task == PrepareTask::Finished <==> v.at == plan.assignments@.len()
    &&& forall|path: Seq<char>| #[trigger]
        v.outlines.contains_key(path) ==> is_source(plan, path) && v.outlines[path].len() > 0
}

/// Preparing the chapter indexes of a plan. It is done before anything is
/// written, and always from the sources rather than the filed copies, so the
/// headings come out of pristine files.
pub struct Preparing {
    at: usize,
    task: PrepareTask,
    outlines: TextMap<Vec<Entry>>,
}

impl View for Preparing {
    type V = PrepareView;

    closed spec fn view(&self) -> PrepareView {
        PrepareView {
            at: self.at as nat,
            task: self.task,
            outlines: outlines_by_source(self.outlines@),
        }
    }
}

impl Preparing {
    pub fn new(plan: &Plan) -> (r: Self)
        ensures
            r@ == (PrepareView {
                at: 0,
                task: if plan.assignments@.len() > 0 {
                    PrepareTask::CountPages
                } else {
                    PrepareTask::Finished
                },
                outlines: Map::<Seq<char>, Seq<EntryView>>::empty(),
            }),
            prepares(r@, *plan),
    {
        let run = Preparing {
            at: 0,
            task: if plan.assignments.len() > 0 {
                PrepareTask::CountPages
            } else {
                PrepareTask::Finished
            },
            outlines: TextMap::new(),
        };
        assert(run@.outlines =~= Map::<Seq<char>, Seq<EntryView>>::empty());
        run
    }

    pub fn task(&self) -> (r: PrepareTask)
        ensures
            r == self@.task,
    {
        self.task
    }

    /// The document in hand, by its place in the plan.
    pub fn at(&self) -> (r: usize)
        ensures
            r == self@.at,
    {
        self.at
    }

    fn advance(&mut self, plan: &Plan)
        requires
            old(self)@.at < plan.assignments@.len(),
        ensures
            final(self)@ == next_source(old(self)@, *plan),
    {
        let total: usize = plan.assignments.len();
        self.at = self.at + 1;
        self.task = if self.at < total {
            PrepareTask::CountPages
        } else {
            PrepareTask::Finished
        };
    }

    /// Take in how many pages the source in hand has.
    pub fn counted(&mut self, plan: &Plan, min_pages: usize, pages: Option<usize>)
        requires
            prepares(old(self)@, *plan),
        ensures
            final(self)@ == source_counted(old(self)@, *plan, min_pages, pages),
            old(self)@.task == PrepareTask::CountPages ==> if (pages is Some && pages->0
                >= min_pages) || min_pages == 0 {
                final(self)@ == (PrepareView { task: PrepareTask::ReadHeadings, ..old(self)@ })
            } else {
                final(self)@.at == old(self)@.at + 1 && final(self)@.outlines == old(self)@.outlines
            },
            prepares(final(self)@, *plan),
    {
        match self.task {
            PrepareTask::CountPages => {
                if check_pages(pages, min_pages).is_err() {
                    self.advance(plan);
                } else {
                    self.task = PrepareTask::ReadHeadings;
                }
            },
            _ => {},
        }
    }

    /// Take in the layout of the source in hand, or why it could not be read,
    /// and have the headings judged by a backend if there is one.
    pub fn read<B: Brain>(
        &mut self,
        plan: &Plan,
        cfg: &BookmarksConfig,
        layout: Result<&str, String>,
        brain: &mut Option<B>,
    )
        requires
            prepares(old(self)@, *plan),
        ensures
            exists|entries: Seq<EntryView>| #[trigger]
                source_read(old(self)@, *plan, cfg.min_ratio, layout_view(layout), entries)
                    == final(self)@ && if old(self)@.task == PrepareTask::ReadHeadings {
                    reads_as(
                        layout_view(layout),
                        cfg.min_ratio,
                        cfg.max_depth,
                        *old(brain),
                        *final(brain),
                        entries,
                    )
                } else {
                    *final(brain) == *old(brain)
                },
            prepares(final(self)@, *plan),
    {
        let ghost v = self@;
        let ghost said = layout_view(layout);
        let reading = match self.task {
            PrepareTask::ReadHeadings => true,
            _ => false,
        };
        match layout {
            Ok(xml) => {
                let ghost suggested = outline::nested(headings_in(xml@, cfg.min_ratio), cfg.max_depth);
                if !reading {
                    assert(source_read(v, *plan, cfg.min_ratio, said, suggested) == v);
                    return;
                }
                match index_from(xml, cfg.min_ratio, cfg.max_depth, brain) {
                    None => {
                        self.advance(plan);
                        assert(source_read(v, *plan, cfg.min_ratio, said, suggested) == self@);
                    },
                    Some(entries) => {
                        let ghost list = outline::entry_views(entries@);
                        assert(list.len() == entries@.len());
                        if entries.len() > 0 {
                            let source = plan.assignments[self.at].source.clone();
                            assert(is_source(*plan, source@));
                            self.outlines.insert(source, entries);
                            assert(self@.outlines =~= v.outlines.insert(source@, list));
                        }
                        self.advance(plan);
                        assert(source_read(v, *plan, cfg.min_ratio, said, list) == self@);
                    },
                }
            },
            Err(_) => {
                if reading {
                    self.advance(plan);
                }
                assert(source_read(v, *plan, cfg.min_ratio, said, seq![]) == self@);
            },
        }
    }

    /// The chapter indexes, by source.
    pub fn finish(self) -> (r: TextMap<Vec<Entry>>)
        ensures
            outlines_by_source(r@) == self@.outlines,
    {
        self.outlines
    }
}

/// Preparing touches the index of the source in hand alone, and gives it one only
/// where headings stand out in its layout.
pub proof fn sources_are_prepared_one_by_one(
    v: PrepareView,
    plan: Plan,
    min_ratio: u32,
    layout: Result<Seq<char>, Seq<char>>,
    entries: Seq<EntryView>,
    path: Seq<char>,
)
    requires
        prepares(v, plan),
        v.task == PrepareTask::ReadHeadings,
    ensures
        ({
            let now = source_read(v, plan, min_ratio, layout, entries);
            &&& now.at == v.at + 1
            &&& path != plan.assignments@[v.at as int].source@ ==> (now.outlines.contains_key(path)
                <==> v.outlines.contains_key(path)) && (v.outlines.contains_key(path)
                ==> now.outlines[path] == v.outlines[path])
            &&& (layout matches Ok(xml) && headings_in(xml, min_ratio).len() > 0 && entries.len()
                > 0) ==> now.outlines.contains_key(plan.assignments@[v.at as int].source@)
                && now.outlines[plan.assignments@[v.at as int].source@] == entries
            &&& layout is Err ==> now.outlines == v.outlines
        }),
{
}

} // verus!
