//! Executing an approved plan, and reversing one.
//!
//! The files themselves are touched elsewhere. Here it is decided what is done
//! to each document, what is recorded of it, and what a reversal does.

use lopdf::Document;
use std::fmt::Write;
use crate::float;
use crate::float::reaches;
use crate::metadata;
use crate::metadata::{NOT_THROUGH_A_HARD_LINK, NOT_THROUGH_A_SYMLINK, may_write};
use crate::naming;
use crate::order;
use crate::order::comes_before;
use crate::outline;
use crate::outline::{Entry, EntryView, Node, Placed, Skip, has_outline};
use crate::paths;
use crate::paths::{join_paths, name_of, path_key_of};
use crate::pdf;
use crate::pdf::{Item, is_encrypted};
use crate::table::TextMap;
use crate::text;
use crate::text::{chars_of, own, stands_at};
use crate::types;
use crate::types::{Assignment, Digest, DigestView, LinkMode, Plan, Timestamp, UndoAction, UndoManifest};
use vstd::prelude::*;
use vstd::string::StringExecFns;

verus! {

/// From this confidence on, 0.6, our metadata replaces what the PDF already carries.
pub const OVERWRITE_CONFIDENCE: u32 = 0x3f19_999a;

pub struct Report {
    pub filed: usize,
    pub skipped: usize,
    pub failed: Vec<(String, String)>,
    pub manifest: Option<String>,
    pub stamped: usize,
    pub stamp_failed: Vec<(String, String)>,
    pub indexed: usize,
    pub bookmarks: usize,
    pub index_skipped: Vec<(String, String)>,
}

/// What each filed document should be enriched with.
///
/// Whether metadata is written is passed separately, because it is also the
/// flag that gates the link-mode check; this carries the work itself.
pub struct Enrichment {
    /// Bookmark entries per source path, prepared before anything is written.
    pub outlines: TextMap<Vec<Entry>>,
    pub max_growth: u32,
}

impl Default for Enrichment {
    fn default() -> (r: Self)
        ensures
            r.outlines@ == Map::<Seq<char>, Vec<Entry>>::empty(),
            r.max_growth == 0,
    {
        Enrichment { outlines: TextMap::new(), max_growth: 0 }
    }
}

pub const NO_METADATA_RECORDED: &'static str =
    "this plan was made before metadata was recorded; re-run `sorting-hat plan` \
to produce one that can be stamped";

/// Whether any document of a plan can be stamped.
pub open spec fn has_digests(v: Seq<Assignment>) -> bool {
    exists|i: int| 0 <= i < v.len() && (#[trigger] v[i]).digest is Some
}

/// Whether a plan may be carried out at all. Checked before anything is created,
/// so a refused combination costs nothing.
pub fn check_apply(plan: &Plan, write_metadata: bool) -> (r: Result<(), String>)
    ensures
        !write_metadata ==> r is Ok,
        write_metadata ==> match plan.mode {
            LinkMode::Copy | LinkMode::Move => if has_digests(plan.assignments@) {
                r is Ok
            } else {
                r matches Err(why) && why@ == NO_METADATA_RECORDED@
            },
            LinkMode::Hardlink => r matches Err(why) && why@ == NOT_THROUGH_A_HARD_LINK@,
            LinkMode::Symlink => r matches Err(why) && why@ == NOT_THROUGH_A_SYMLINK@,
        },
{
    if !write_metadata {
        return Ok(());
    }
    if let Err(why) = may_write(plan.mode) {
        return Err(why);
    }
    let mut i: usize = 0;
    while i < plan.assignments.len()
        invariant
            plan.mode == LinkMode::Copy || plan.mode == LinkMode::Move,
            write_metadata,
            i <= plan.assignments@.len(),
            forall|j: int| 0 <= j < i ==> (#[trigger] plan.assignments@[j]).digest is None,
        decreases plan.assignments@.len() - i,
    {
        if plan.assignments[i].digest.is_some() {
            assert(plan.assignments@[i as int].digest is Some);
            return Ok(());
        }
        i = i + 1;
    }
    Err(own(NO_METADATA_RECORDED))
}

// ---------------------------------------------------------------------------
// One document
// ---------------------------------------------------------------------------

pub const SOURCE_MISSING: &'static str = "source has gone missing since the plan was made";

/// What is done about a document.
#[derive(Clone, Copy, PartialEq, Eq, Structural)]
pub enum Step {
    /// The source has gone missing since the plan was made.
    Missing,
    /// Re-running a plan must not clobber or duplicate work already done.
    AlreadyThere,
    Create,
}

pub fn next_step(source_exists: bool, dest_exists: bool) -> (r: Step)
    ensures
        r == (if !source_exists {
            Step::Missing
        } else if dest_exists {
            Step::AlreadyThere
        } else {
            Step::Create
        }),
{
    if !source_exists {
        Step::Missing
    } else if dest_exists {
        Step::AlreadyThere
    } else {
        Step::Create
    }
}

/// What puts a file in its place.
#[derive(Debug, Clone, Copy, PartialEq, Eq, Structural)]
pub enum Operation {
    HardLink,
    Symlink,
    Copy,
    Rename,
    /// Copy, then remove the original.
    CopyAndRemove,
}

pub open spec fn first_operation(mode: LinkMode) -> Operation {
    match mode {
        LinkMode::Hardlink => Operation::HardLink,
        LinkMode::Symlink => Operation::Symlink,
        LinkMode::Copy => Operation::Copy,
        LinkMode::Move => Operation::Rename,
    }
}

pub fn operation_for(mode: LinkMode) -> (r: Operation)
    ensures
        r == first_operation(mode),
        r == Operation::HardLink <==> mode == LinkMode::Hardlink,
        r == Operation::Symlink <==> mode == LinkMode::Symlink,
        r == Operation::Copy <==> mode == LinkMode::Copy,
        r == Operation::Rename <==> mode == LinkMode::Move,
{
    match mode {
        LinkMode::Hardlink => Operation::HardLink,
        LinkMode::Symlink => Operation::Symlink,
        LinkMode::Copy => Operation::Copy,
        LinkMode::Move => Operation::Rename,
    }
}

/// The error of an operation that crosses file systems.
pub const CROSSES_FILE_SYSTEMS: i32 = 18;

/// What to do instead of an operation that failed. Hard links and renames cannot
/// cross file systems; a copy still satisfies the intent.
pub open spec fn other_operation(failed: Operation, os_error: Option<i32>) -> Option<Operation> {
    if os_error == Some(CROSSES_FILE_SYSTEMS) && failed == Operation::HardLink {
        Some(Operation::Copy)
    } else if os_error == Some(CROSSES_FILE_SYSTEMS) && failed == Operation::Rename {
        Some(Operation::CopyAndRemove)
    } else {
        None
    }
}

pub fn instead_of(failed: Operation, os_error: Option<i32>) -> (r: Option<Operation>)
    ensures
        r == other_operation(failed, os_error),
        r is Some <==> os_error == Some(18i32) && (failed == Operation::HardLink || failed
            == Operation::Rename),
        r is Some && failed == Operation::HardLink ==> r == Some(Operation::Copy),
        r is Some && failed == Operation::Rename ==> r == Some(Operation::CopyAndRemove),
{
    match os_error {
        Some(code) => if code == CROSSES_FILE_SYSTEMS {
            match failed {
                Operation::HardLink => Some(Operation::Copy),
                Operation::Rename => Some(Operation::CopyAndRemove),
                _ => None,
            }
        } else {
            None
        },
        None => None,
    }
}

/// What became of a document that was rewritten.
pub struct Enriched {
    pub stamped: bool,
    pub bookmarks: usize,
    pub outline_skipped: Option<String>,
    /// Whether the document has to be saved.
    pub changed: bool,
}

/// Whether a document takes the fields of a digest, as one sure enough to
/// overwrite what is there, or not.
pub open spec fn takes_fields(doc: Document, digest: Option<DigestView>) -> bool {
    match digest {
        Some(d) => metadata::stamped(metadata::info_of(doc), metadata::fields_of(d), float::at_least(d.confidence, OVERWRITE_CONFIDENCE)).1.len()
            > 0,
        None => false,
    }
}

/// A document has become another by the stamping that was asked for.
pub open spec fn stamps(before: Document, after: Document, digest: Option<DigestView>) -> bool {
    match digest {
        Some(d) => metadata::is_stamped(before, after, d, float::at_least(d.confidence, OVERWRITE_CONFIDENCE)),
        None => after == before,
    }
}

/// What is said of the chapter index that was asked for.
pub open spec fn indexes(
    before: Document,
    after: Document,
    entries: Option<Seq<EntryView>>,
    done: Enriched,
) -> bool {
    match entries {
        None => after == before && done.bookmarks == 0 && done.outline_skipped is None,
        Some(list) => if outline::holds_outline(pdf::objects_of(before), pdf::trailer_of(before)) {
            &&& after == before
            &&& done.bookmarks == 0
            &&& text::opt_text(done.outline_skipped) == Some(Skip::AlreadyIndexed.reason())
        } else if outline::can_index(before, list) {
            &&& exists|nodes: Seq<Node>| #[trigger] outline::is_indexed(before, after, list, nodes)
            &&& match pdf::held(pdf::trailer_of(before), "Root"@) {
                Some(Item::Reference(_)) => done.bookmarks == outline::on_pages(
                    list,
                    pdf::pages_of(before).len(),
                ).len() && done.outline_skipped is None,
                _ => done.bookmarks == 0 && done.outline_skipped is Some,
            }
        } else {
            &&& after == before
            &&& done.bookmarks == 0
            &&& text::opt_text(done.outline_skipped) == outline::index_refusal(before, list)
        },
    }
}

pub open spec fn opt_entries(o: Option<&Vec<Entry>>) -> Option<Seq<EntryView>> {
    match o {
        Some(v) => Some(outline::entry_views(v@)),
        None => None,
    }
}

pub open spec fn opt_digest_ref(o: Option<&Digest>) -> Option<DigestView> {
    match o {
        Some(d) => Some(d@),
        None => None,
    }
}

pub const TOO_MANY_OBJECTS: &'static str = "too many objects";

/// Make every change that a loaded document needs. One load, one save, every
/// change at once: a document gets exactly one rewrite or it gets none.
pub fn rewrite(doc: &mut Document, digest: Option<&Digest>, entries: Option<&Vec<Entry>>) -> (r:
    Result<Enriched, String>)
    ensures
        digest is Some && pdf::max_id_of(*old(doc)) == u32::MAX ==> (r matches Err(why) && why@
            == TOO_MANY_OBJECTS@ && *final(doc) == *old(doc)),
        !(digest is Some && pdf::max_id_of(*old(doc)) == u32::MAX) ==> (r matches Ok(done) && {
            &&& done.stamped == takes_fields(*old(doc), opt_digest_ref(digest))
            &&& done.changed == (done.stamped || done.bookmarks > 0)
            &&& exists|mid: Document| #[trigger]
                stamps(*old(doc), mid, opt_digest_ref(digest)) && indexes(
                    mid,
                    *final(doc),
                    opt_entries(entries),
                    done,
                )
        }),
{
    let mut done = Enriched { stamped: false, bookmarks: 0, outline_skipped: None, changed: false };
    if let Some(d) = digest {
        if !metadata::has_room(doc) {
            return Err(own(TOO_MANY_OBJECTS));
        }
        let written = metadata::apply_to_doc(doc, d, reaches(d.confidence, OVERWRITE_CONFIDENCE));
        assert(metadata::name_texts(written@).len() == written@.len());
        if written.len() > 0 {
            done.stamped = true;
            done.changed = true;
        }
    }
    let ghost mid = *doc;
    assert(stamps(*old(doc), mid, opt_digest_ref(digest)));
    if let Some(list) = entries {
        if has_outline(doc) {
            done.outline_skipped = Some(Skip::AlreadyIndexed.message());
        } else {
            match outline::apply_to_doc(doc, list.as_slice()) {
                Ok(n) => {
                    proof {
                        lemma_on_pages(outline::entry_views(list@), pdf::pages_of(mid).len());
                    }
                    done.bookmarks = n;
                    done.changed = true;
                },
                Err(skip) => {
                    done.outline_skipped = Some(skip.message());
                },
            }
        }
    }
    assert(indexes(mid, *doc, opt_entries(entries), done));
    Ok(done)
}

pub const ENCRYPTED: &'static str = "PDF is encrypted; leaving it alone";

/// The digest to stamp a document with, if it is to be stamped.
pub open spec fn digest_to_stamp(assignment: Assignment, write_metadata: bool) -> Option<
    types::DigestView,
> {
    if write_metadata {
        types::opt_digest(assignment.digest)
    } else {
        None
    }
}

/// Make every change that a filed document needs, once it is loaded. An
/// encrypted one is left alone.
pub fn rewrite_filed(
    doc: &mut Document,
    assignment: &Assignment,
    write_metadata: bool,
    entries: Option<&Vec<Entry>>,
) -> (r: Result<Enriched, String>)
    ensures
        pdf::encrypted(*old(doc)) ==> (r matches Err(why) && why@ == ENCRYPTED@ && *final(doc)
            == *old(doc)),
        !pdf::encrypted(*old(doc)) && digest_to_stamp(*assignment, write_metadata) is Some
            && pdf::max_id_of(*old(doc)) == u32::MAX ==> (r matches Err(why) && why@
            == TOO_MANY_OBJECTS@ && *final(doc) == *old(doc)),
        !pdf::encrypted(*old(doc)) && !(digest_to_stamp(*assignment, write_metadata) is Some
            && pdf::max_id_of(*old(doc)) == u32::MAX) ==> (r matches Ok(done) && {
            &&& done.stamped == takes_fields(
                *old(doc),
                digest_to_stamp(*assignment, write_metadata),
            )
            &&& done.changed == (done.stamped || done.bookmarks > 0)
            &&& exists|mid: Document| #[trigger]
                stamps(*old(doc), mid, digest_to_stamp(*assignment, write_metadata)) && indexes(
                    mid,
                    *final(doc),
                    opt_entries(entries),
                    done,
                )
        }),
{
    if is_encrypted(doc) {
        return Err(own(ENCRYPTED));
    }
    let digest = if write_metadata {
        match &assignment.digest {
            Some(d) => Some(d),
            None => None,
        }
    } else {
        None
    };
    rewrite(doc, digest, entries)
}

proof fn lemma_on_pages(entries: Seq<EntryView>, pages: nat)
    ensures
        outline::on_pages(entries, pages).len() <= entries.len(),
    decreases entries.len(),
{
    if entries.len() > 0 {
        lemma_on_pages(entries.drop_last(), pages);
    }
}

// ---------------------------------------------------------------------------
// A rewrite is determined by what goes into it
// ---------------------------------------------------------------------------

/// Whether two documents hold the same.
pub open spec fn same_contents(a: Document, b: Document) -> bool {
    &&& pdf::objects_of(a) == pdf::objects_of(b)
    &&& pdf::trailer_of(a) == pdf::trailer_of(b)
    &&& pdf::max_id_of(a) == pdf::max_id_of(b)
}

/// What a document holds after a rewrite, what it was stamped with and how many
/// bookmarks it got is determined by what it held before, the digest and the
/// entries. So writing everything anew from a pristine source gives the same
/// document each time, whatever was written before.
pub proof fn rewrites_are_repeatable(
    before: Document,
    again: Document,
    mid: Document,
    mid_again: Document,
    after: Document,
    after_again: Document,
    digest: Option<DigestView>,
    entries: Option<Seq<EntryView>>,
    done: Enriched,
    done_again: Enriched,
)
    requires
        same_contents(before, again),
        stamps(before, mid, digest),
        stamps(again, mid_again, digest),
        indexes(mid, after, entries, done),
        indexes(mid_again, after_again, entries, done_again),
    ensures
        same_contents(after, after_again),
        takes_fields(before, digest) == takes_fields(again, digest),
        done.bookmarks == done_again.bookmarks,
{
    assert(same_contents(mid, mid_again));
    if let Some(list) = entries {
        if !outline::holds_outline(pdf::objects_of(mid), pdf::trailer_of(mid)) && outline::can_index(mid, list) {
            let nodes = choose|nodes: Seq<Node>| #[trigger] outline::is_indexed(mid, after, list, nodes);
            let nodes_again = choose|nodes: Seq<Node>| #[trigger]
                outline::is_indexed(mid_again, after_again, list, nodes);
            outline::lemma_one_forest(nodes, nodes_again, 0);
            outline::lemma_same_tree(
                nodes,
                nodes_again,
                pdf::objects_of(mid),
                pdf::max_id_of(mid) as int,
                pdf::pages_of(mid),
            );
        }
    }
}

/// A digest that is at least 0.6 sure replaces what a PDF says of itself; a less
/// sure one leaves what is there alone, and fills in what is missing.
pub proof fn sure_digests_replace_what_is_there(before: Document, after: Document, d: DigestView)
    requires
        stamps(before, after, Some(d)),
        pdf::max_id_of(before) < u32::MAX,
        !naming::says_nothing(d.title),
    ensures
        ({
            let old_title = pdf::held(metadata::info_of(before), "Title"@);
            let new_title = pdf::held(metadata::info_of(after), "Title"@);
            let own_title = Item::Text(vstd::utf8::encode_utf8(d.title));
            &&& float::at_least(d.confidence, 0x3f19_999a) ==> new_title == Some(own_title)
            &&& !float::at_least(d.confidence, 0x3f19_999a) ==> match old_title {
                Some(Item::Text(bytes)) => if bytes.len() > 0 {
                    new_title == old_title
                } else {
                    new_title == Some(own_title)
                },
                _ => new_title == Some(own_title),
            }
        }),
{
    metadata::what_is_known_is_written(
        before,
        after,
        d,
        float::at_least(d.confidence, OVERWRITE_CONFIDENCE),
    );
}

/// Every heading of a document that got bookmarks, and that stands on one of its
/// pages, has a bookmark that leads to that page. A document that has an index
/// already is left alone.
pub proof fn chapters_lead_to_their_pages(
    before: Document,
    after: Document,
    list: Seq<EntryView>,
    done: Enriched,
    a: int,
)
    requires
        indexes(before, after, Some(list), done),
        0 <= a < list.len(),
        1 <= list[a].page <= pdf::pages_of(before).len(),
    ensures
        done.bookmarks > 0 ==> exists|id: (u32, u16)| #[trigger]
            pdf::objects_of(after).contains_key(id) && outline::leads_to(
                pdf::objects_of(after)[id],
                list[a].title,
                pdf::pages_of(before)[list[a].page - 1],
            ),
        outline::holds_outline(pdf::objects_of(before), pdf::trailer_of(before)) ==> after == before
            && done.bookmarks == 0,
{
    if done.bookmarks > 0 {
        let nodes = choose|nodes: Seq<Node>| #[trigger]
            outline::is_indexed(before, after, list, nodes);
        let n = outline::on_pages(list, pdf::pages_of(before).len()).len();
        let r: Result<usize, Skip> = Ok(n as usize);
        assert(outline::writes_index(before, after, list, r));
        outline::every_heading_leads_to_its_page(before, after, list, r, a);
    }
}

// ---------------------------------------------------------------------------
// The whole run
// ---------------------------------------------------------------------------

pub struct UndoActionView {
    pub created: Seq<char>,
    pub original: Seq<char>,
}

impl View for UndoAction {
    type V = UndoActionView;

    open spec fn view(&self) -> UndoActionView {
        UndoActionView { created: self.created@, original: self.original@ }
    }
}

pub open spec fn action_views(v: Seq<UndoAction>) -> Seq<UndoActionView> {
    Seq::new(v.len(), |i: int| v[i]@)
}

pub open spec fn note_view(n: (String, String)) -> (Seq<char>, Seq<char>) {
    (n.0@, n.1@)
}

pub open spec fn note_views(v: Seq<(String, String)>) -> Seq<(Seq<char>, Seq<char>)> {
    Seq::new(v.len(), |i: int| note_view(v[i]))
}

/// What a run has done so far.
pub struct Tally {
    pub actions: Seq<UndoActionView>,
    pub filed: nat,
    pub skipped: nat,
    pub failed: Seq<(Seq<char>, Seq<char>)>,
    pub stamped: nat,
    pub stamp_failed: Seq<(Seq<char>, Seq<char>)>,
    pub indexed: nat,
    pub bookmarks: nat,
    pub index_skipped: Seq<(Seq<char>, Seq<char>)>,
}

/// What is to be done next about the document in hand.
#[derive(Debug, Clone, Copy, PartialEq, Eq, Structural)]
pub enum Task {
    /// See whether its source and its destination are there.
    Inspect,
    /// Make the directory it goes into.
    MakeParent,
    /// Keep the record, then put it in place.
    Place(Operation),
    /// Load the filed document, make every change to it, and save it.
    Rewrite,
    /// There is no document left.
    Finished,
}

/// What came of a task.
pub enum Event {
    Inspected { source_exists: bool, dest_exists: bool },
    ParentMade,
    Placed,
    /// The directory was not made, or the file was not put in place. Tells whether
    /// there is a file at the destination all the same.
    Failed { os_error: Option<i32>, why: String, left: bool },
    Rewritten(Result<Enriched, String>),
}

/// Where a run stands.
pub struct RunView {
    /// The document in hand.
    pub at: nat,
    pub task: Task,
    pub tally: Tally,
}

/// The record of one document of a plan.
pub open spec fn action_for(plan: Plan, at: int) -> UndoActionView {
    UndoActionView {
        created: paths::join(plan.library_root@, plan.assignments@[at].dest@),
        original: plan.assignments@[at].source@,
    }
}

/// Whether a file on record is that of a document of the plan.
pub open spec fn is_planned(plan: Plan, action: UndoActionView) -> bool {
    exists|at: int| 0 <= at < plan.assignments@.len() && #[trigger] action_for(plan, at) == action
}

/// On to the next document.
pub open spec fn onward(v: RunView, plan: Plan) -> RunView {
    RunView {
        at: v.at + 1,
        task: if v.at + 1 < plan.assignments@.len() {
            Task::Inspect
        } else {
            Task::Finished
        },
        ..v
    }
}

/// What a rewritten document adds to a tally.
pub open spec fn with_rewrite(
    t: Tally,
    dest: Seq<char>,
    outcome: Result<Enriched, String>,
) -> Tally {
    match outcome {
        Ok(done) => Tally {
            stamped: t.stamped + (if done.stamped {
                1nat
            } else {
                0nat
            }),
            indexed: t.indexed + (if done.bookmarks > 0 {
                1nat
            } else {
                0nat
            }),
            bookmarks: t.bookmarks + done.bookmarks as nat,
            index_skipped: match done.outline_skipped {
                Some(why) => t.index_skipped.push((dest, why@)),
                None => t.index_skipped,
            },
            ..t
        },
        Err(why) => Tally { stamp_failed: t.stamp_failed.push((dest, why@)), ..t },
    }
}

/// Where a run stands after an event. One that is no answer to the task in hand
/// changes nothing.
pub open spec fn run_step(v: RunView, plan: Plan, rewrites: bool, event: Event) -> RunView {
    let action = action_for(plan, v.at as int);
    match (v.task, event) {
        (Task::Inspect, Event::Inspected { source_exists, dest_exists }) => if !source_exists {
            onward(
                RunView {
                    tally: Tally {
                        failed: v.tally.failed.push((action.original, SOURCE_MISSING@)),
                        ..v.tally
                    },
                    ..v
                },
                plan,
            )
        } else if dest_exists {
            onward(
                RunView { tally: Tally { skipped: v.tally.skipped + 1, ..v.tally }, ..v },
                plan,
            )
        } else {
            RunView { task: Task::MakeParent, ..v }
        },
        (Task::MakeParent, Event::ParentMade) => RunView {
            task: Task::Place(first_operation(plan.mode)),
            tally: Tally { actions: v.tally.actions.push(action), ..v.tally },
            ..v
        },
        (Task::MakeParent, Event::Failed { os_error: _, why, left: _ }) => onward(
            RunView {
                tally: Tally { failed: v.tally.failed.push((action.original, why@)), ..v.tally },
                ..v
            },
            plan,
        ),
        (Task::Place(_), Event::Placed) => {
            let filed = RunView { tally: Tally { filed: v.tally.filed + 1, ..v.tally }, ..v };
            if rewrites {
                RunView { task: Task::Rewrite, ..filed }
            } else {
                onward(filed, plan)
            }
        },
        (Task::Place(op), Event::Failed { os_error, why, left }) => match other_operation(op, os_error) {
            Some(other) => RunView { task: Task::Place(other), ..v },
            None => onward(
                RunView {
                    tally: Tally {
                        actions: if left && may_leave_a_file(op) {
                            v.tally.actions
                        } else {
                            v.tally.actions.drop_last()
                        },
                        failed: v.tally.failed.push((action.original, why@)),
                        ..v.tally
                    },
                    ..v
                },
                plan,
            ),
        },
        (Task::Rewrite, Event::Rewritten(outcome)) => onward(
            RunView { tally: with_rewrite(v.tally, action.created, outcome), ..v },
            plan,
        ),
        _ => v,
    }
}

/// Whether a file that is there after an operation has failed may be of its making:
/// a copy may have been begun before something went wrong. The others create the
/// file or do not.
pub open spec fn may_leave_a_file(op: Operation) -> bool {
    op == Operation::Copy || op == Operation::CopyAndRemove
}

/// Whether the file of the document in hand is on record.
pub open spec fn on_record(task: Task) -> bool {
    task is Place || task is Rewrite
}

/// What holds of a run at every moment: each document before the one in hand was
/// filed, was there already or failed, the one in hand is on record from before
/// it is put in place, and nothing but documents of the plan is on record.
pub open spec fn in_order(v: RunView, plan: Plan) -> bool {
    &&& v.at <= plan.assignments@.len()
    &&& v.task == Task::Finished <==> v.at == plan.assignments@.len()
    &&& v.tally.filed + v.tally.skipped + v.tally.failed.len() == v.at + (if v.task is Rewrite {
        1int
    } else {
        0int
    })
    &&& v.tally.filed + (if v.task is Place {
        1int
    } else {
        0int
    }) <= v.tally.actions.len() <= v.at + (if on_record(v.task) {
        1int
    } else {
        0int
    })
    &&& on_record(v.task) ==> v.tally.actions.len() > 0 && v.tally.actions.last() == action_for(
        plan,
        v.at as int,
    )
    &&& forall|i: int|
        0 <= i < v.tally.actions.len() ==> is_planned(plan, #[trigger] v.tally.actions[i])
    &&& v.tally.stamped <= v.at
    &&& v.tally.indexed <= v.at
}

/// A run under way. Every file is recorded before it is created, so an
/// interrupted run is still fully reversible.
pub struct Applying {
    manifest: UndoManifest,
    report: Report,
    at: usize,
    task: Task,
}

fn note(path: &str, why: &str) -> (r: (String, String))
    ensures
        note_view(r) == (path@, why@),
{
    (own(path), own(why))
}

pub(crate) fn push_note(list: &mut Vec<(String, String)>, path: &str, why: &str)
    ensures
        note_views(final(list)@) == note_views(old(list)@).push((path@, why@)),
{
    let ghost before = list@;
    let item = note(path, why);
    list.push(item);
    assert(note_views(list@) =~= note_views(before).push(note_view(item)));
}

impl View for Applying {
    type V = RunView;

    closed spec fn view(&self) -> RunView {
        RunView {
            at: self.at as nat,
            task: self.task,
            tally: Tally {
                actions: action_views(self.manifest.actions@),
                filed: self.report.filed as nat,
                skipped: self.report.skipped as nat,
                failed: note_views(self.report.failed@),
                stamped: self.report.stamped as nat,
                stamp_failed: note_views(self.report.stamp_failed@),
                indexed: self.report.indexed as nat,
                bookmarks: self.report.bookmarks as nat,
                index_skipped: note_views(self.report.index_skipped@),
            },
        }
    }
}

impl Applying {
    /// What stays the same throughout the run.
    pub closed spec fn header(self) -> (Timestamp, LinkMode, Seq<char>) {
        (self.manifest.created, self.manifest.mode, self.manifest.library_root@)
    }

    pub fn new(plan: &Plan, created: Timestamp) -> (r: Self)
        ensures
            r@ == (RunView {
                at: 0,
                task: if plan.assignments@.len() > 0 {
                    Task::Inspect
                } else {
                    Task::Finished
                },
                tally: Tally {
                    actions: seq![],
                    filed: 0,
                    skipped: 0,
                    failed: seq![],
                    stamped: 0,
                    stamp_failed: seq![],
                    indexed: 0,
                    bookmarks: 0,
                    index_skipped: seq![],
                },
            }),
            r.header() == (created, plan.mode, plan.library_root@),
            in_order(r@, *plan),
    {
        let run = Applying {
            manifest: UndoManifest {
                created,
                mode: plan.mode,
                library_root: plan.library_root.clone(),
                actions: Vec::new(),
            },
            report: Report {
                filed: 0,
                skipped: 0,
                failed: Vec::new(),
                manifest: None,
                stamped: 0,
                stamp_failed: Vec::new(),
                indexed: 0,
                bookmarks: 0,
                index_skipped: Vec::new(),
            },
            at: 0,
            task: if plan.assignments.len() > 0 {
                Task::Inspect
            } else {
                Task::Finished
            },
        };
        assert(run@.tally.actions =~= seq![]);
        assert(run@.tally.failed =~= seq![]);
        assert(run@.tally.stamp_failed =~= seq![]);
        assert(run@.tally.index_skipped =~= seq![]);
        run
    }

    /// What to do next.
    pub fn task(&self) -> (r: Task)
        ensures
            r == self@.task,
    {
        self.task
    }

    /// The document in hand, by its place in the plan.
    pub fn at(&self) -> (r: usize)
        ensures
            r == self@.at,
    {
        self.at
    }

    /// The record of the run, for writing out.
    pub fn record(&self) -> (r: &UndoManifest)
        ensures
            action_views(r.actions@) == self@.tally.actions,
            (r.created, r.mode, r.library_root@) == self.header(),
    {
        &self.manifest
    }

    /// Go on to the next document.
    fn advance(&mut self, plan: &Plan)
        requires
            old(self)@.at < plan.assignments@.len(),
        ensures
            final(self)@ == onward(old(self)@, *plan),
            final(self).header() == old(self).header(),
    {
        let total: usize = plan.assignments.len();
        self.at = self.at + 1;
        self.task = if self.at < total {
            Task::Inspect
        } else {
            Task::Finished
        };
    }

    /// Record a file that is about to be created, and where it comes from.
    fn begin(&mut self, dest: String, source: String)
        ensures
            final(self)@ == (RunView {
                tally: Tally {
                    actions: old(self)@.tally.actions.push(
                        UndoActionView { created: dest@, original: source@ },
                    ),
                    ..old(self)@.tally
                },
                ..old(self)@
            }),
            final(self).header() == old(self).header(),
    {
        let action = UndoAction { created: dest, original: source };
        let ghost before = self.manifest.actions@;
        self.manifest.actions.push(action);
        assert(action_views(self.manifest.actions@) =~= action_views(before).push(action@));
    }

    /// The file recorded last was not created after all: take it off the record.
    fn withdraw(&mut self)
        requires
            old(self)@.tally.actions.len() > 0,
        ensures
            final(self)@ == (RunView {
                tally: Tally {
                    actions: old(self)@.tally.actions.drop_last(),
                    ..old(self)@.tally
                },
                ..old(self)@
            }),
            final(self).header() == old(self).header(),
    {
        let ghost before = self.manifest.actions@;
        assert(action_views(before).len() == before.len());
        let _ = self.manifest.actions.pop();
        assert(action_views(self.manifest.actions@) =~= action_views(before).drop_last());
    }

    /// A document that could not be filed.
    fn fail(&mut self, source: &str, why: &str)
        ensures
            final(self)@ == (RunView {
                tally: Tally {
                    failed: old(self)@.tally.failed.push((source@, why@)),
                    ..old(self)@.tally
                },
                ..old(self)@
            }),
            final(self).header() == old(self).header(),
    {
        push_note(&mut self.report.failed, source, why);
    }

    /// Take in what became of a filed document that was to be rewritten.
    fn enriched(&mut self, dest: &str, outcome: Result<Enriched, String>)
        requires
            old(self)@.tally.stamped < usize::MAX,
            old(self)@.tally.indexed < usize::MAX,
            outcome matches Ok(done) ==> old(self)@.tally.bookmarks + done.bookmarks
                <= usize::MAX,
        ensures
            final(self)@ == (RunView {
                tally: with_rewrite(old(self)@.tally, dest@, outcome),
                ..old(self)@
            }),
            final(self).header() == old(self).header(),
    {
        match outcome {
            Ok(done) => {
                if done.stamped {
                    self.report.stamped = self.report.stamped + 1;
                }
                if done.bookmarks > 0 {
                    self.report.indexed = self.report.indexed + 1;
                    self.report.bookmarks = self.report.bookmarks + done.bookmarks;
                }
                if let Some(why) = done.outline_skipped {
                    push_note(&mut self.report.index_skipped, dest, why.as_str());
                }
            },
            Err(why) => {
                push_note(&mut self.report.stamp_failed, dest, why.as_str());
            },
        }
    }

    /// Take in what came of the task in hand, and go on.
    pub fn take(&mut self, plan: &Plan, write_metadata: bool, enrich: &Enrichment, event: Event)
        requires
            in_order(old(self)@, *plan),
            event matches Event::Rewritten(Ok(done)) ==> old(self)@.tally.bookmarks
                + done.bookmarks <= usize::MAX,
        ensures
            final(self)@ == run_step(
                old(self)@,
                *plan,
                write_metadata || enrich.outlines@.contains_key(
                    plan.assignments@[old(self)@.at as int].source@,
                ),
                event,
            ),
            final(self).header() == old(self).header(),
            in_order(final(self)@, *plan),
    {
        if self.at >= plan.assignments.len() {
            return;
        }
        let assignment = &plan.assignments[self.at];
        let source = assignment.source.as_str();
        match (self.task, event) {
            (Task::Inspect, Event::Inspected { source_exists, dest_exists }) => {
                match next_step(source_exists, dest_exists) {
                    Step::Missing => {
                        self.fail(source, SOURCE_MISSING);
                        self.advance(plan);
                    },
                    Step::AlreadyThere => {
                        self.report.skipped = self.report.skipped + 1;
                        self.advance(plan);
                    },
                    Step::Create => {
                        self.task = Task::MakeParent;
                    },
                }
            },
            (Task::MakeParent, Event::ParentMade) => {
                let dest = join_paths(plan.library_root.as_str(), assignment.dest.as_str());
                assert(is_planned(*plan, action_for(*plan, self.at as int)));
                self.begin(dest, assignment.source.clone());
                self.task = Task::Place(operation_for(plan.mode));
            },
            (Task::MakeParent, Event::Failed { os_error: _, why, left: _ }) => {
                self.fail(source, why.as_str());
                self.advance(plan);
            },
            (Task::Place(_), Event::Placed) => {
                self.report.filed = self.report.filed + 1;
                if write_metadata || enrich.outlines.get(source).is_some() {
                    self.task = Task::Rewrite;
                } else {
                    self.advance(plan);
                }
            },
            (Task::Place(op), Event::Failed { os_error, why, left }) => {
                match instead_of(op, os_error) {
                    Some(other) => {
                        self.task = Task::Place(other);
                    },
                    None => {
                        let kept = match op {
                            Operation::Copy => true,
                            Operation::CopyAndRemove => true,
                            _ => false,
                        };
                        if !(left && kept) {
                            self.withdraw();
                        }
                        self.fail(source, why.as_str());
                        self.advance(plan);
                    },
                }
            },
            (Task::Rewrite, Event::Rewritten(outcome)) => {
                let dest = join_paths(plan.library_root.as_str(), assignment.dest.as_str());
                self.enriched(dest.as_str(), outcome);
                self.advance(plan);
            },
            _ => {},
        }
    }

    /// What the run did. The record is kept if there is anything on it.
    pub fn finish(self, manifest: Option<String>) -> (r: Report)
        ensures
            r.filed == self@.tally.filed,
            r.skipped == self@.tally.skipped,
            note_views(r.failed@) == self@.tally.failed,
            r.stamped == self@.tally.stamped,
            note_views(r.stamp_failed@) == self@.tally.stamp_failed,
            r.indexed == self@.tally.indexed,
            r.bookmarks == self@.tally.bookmarks,
            note_views(r.index_skipped@) == self@.tally.index_skipped,
            text::opt_text(r.manifest) == (if self@.tally.actions.len() > 0 {
                text::opt_text(manifest)
            } else {
                None
            }),
    {
        assert(self@.tally.actions.len() == self.manifest.actions@.len());
        let mut report = self.report;
        report.manifest = if self.manifest.actions.len() > 0 {
            manifest
        } else {
            None
        };
        report
    }
}

/// A finished run has settled every document of its plan: each was filed, was
/// there already, or failed with a reason.
pub proof fn every_document_is_settled(v: RunView, plan: Plan)
    requires
        in_order(v, plan),
        v.task == Task::Finished,
    ensures
        v.tally.filed + v.tally.skipped + v.tally.failed.len() == plan.assignments@.len(),
        v.tally.filed <= v.tally.actions.len(),
{
}

/// A document is created only where its source is there and nothing is at its
/// destination: what is there already is counted and left alone, and a source that
/// is gone is a failure.
pub proof fn nothing_is_put_over_a_file(
    v: RunView,
    plan: Plan,
    rewrites: bool,
    source_exists: bool,
    dest_exists: bool,
)
    requires
        in_order(v, plan),
        v.task == Task::Inspect,
    ensures
        ({
            let now = run_step(
                v,
                plan,
                rewrites,
                Event::Inspected { source_exists, dest_exists },
            );
            &&& now.tally.actions == v.tally.actions
            &&& now.tally.filed == v.tally.filed
            &&& if source_exists && !dest_exists {
                now.task == Task::MakeParent && now.at == v.at && now.tally == v.tally
            } else {
                &&& now.at == v.at + 1
                &&& now.task == Task::Inspect || now.task == Task::Finished
                &&& now.tally.skipped == v.tally.skipped + (if source_exists {
                    1int
                } else {
                    0int
                })
                &&& now.tally.failed.len() == v.tally.failed.len() + (if source_exists {
                    0int
                } else {
                    1int
                })
            }
        }),
{
}

/// Whether an operation takes the original away.
pub open spec fn takes_away(op: Operation) -> bool {
    op == Operation::Rename || op == Operation::CopyAndRemove
}

/// A document is put in place as the plan says, by a hard link, a symbolic link, a
/// copy or a move. Where that would cross file systems, a copy does instead. The
/// original is taken away by a move alone.
pub proof fn originals_are_taken_away_by_moves_alone(
    v: RunView,
    plan: Plan,
    rewrites: bool,
    event: Event,
)
    requires
        in_order(v, plan),
        v.task matches Task::Place(op) ==> (takes_away(op) <==> plan.mode == LinkMode::Move),
    ensures
        run_step(v, plan, rewrites, event).task matches Task::Place(op) ==> (takes_away(op)
            <==> plan.mode == LinkMode::Move),
        v.task == Task::MakeParent && event is ParentMade ==> run_step(
            v,
            plan,
            rewrites,
            event,
        ).task == Task::Place(
            match plan.mode {
                LinkMode::Hardlink => Operation::HardLink,
                LinkMode::Symlink => Operation::Symlink,
                LinkMode::Copy => Operation::Copy,
                LinkMode::Move => Operation::Rename,
            },
        ),
        v.task is Place && run_step(v, plan, rewrites, event).task is Place ==> (run_step(
            v,
            plan,
            rewrites,
            event,
        ) == v) || (event matches Event::Failed { os_error: Some(code), .. } && code == 18),
{
}

/// What became of a document that was rewritten is counted: whether it was stamped,
/// whether it got an index, and with how many bookmarks. A rewrite that failed is
/// listed, and one that left the index out is, too.
pub proof fn rewrites_are_counted(v: RunView, plan: Plan, outcome: Result<Enriched, String>)
    requires
        in_order(v, plan),
        v.task == Task::Rewrite,
    ensures
        ({
            let now = run_step(v, plan, true, Event::Rewritten(outcome));
            &&& now.at == v.at + 1
            &&& now.tally.filed == v.tally.filed
            &&& now.tally.actions == v.tally.actions
            &&& match outcome {
                Ok(done) => {
                    &&& now.tally.stamped > v.tally.stamped <==> done.stamped
                    &&& now.tally.indexed > v.tally.indexed <==> done.bookmarks > 0
                    &&& now.tally.bookmarks == v.tally.bookmarks + done.bookmarks
                    &&& now.tally.index_skipped.len() > v.tally.index_skipped.len()
                        <==> done.outline_skipped is Some
                    &&& now.tally.stamp_failed == v.tally.stamp_failed
                },
                Err(why) => {
                    &&& now.tally.stamp_failed.len() == v.tally.stamp_failed.len() + 1
                    &&& now.tally.stamp_failed.last().1 == why@
                    &&& now.tally.stamped == v.tally.stamped
                    &&& now.tally.bookmarks == v.tally.bookmarks
                },
            }
        }),
{
}

/// A file is on record before it is put in place.
pub proof fn files_are_recorded_first(v: RunView, plan: Plan)
    requires
        in_order(v, plan),
        v.task is Place || v.task is Rewrite,
    ensures
        v.tally.actions.contains(action_for(plan, v.at as int)),
{
    let last = v.tally.actions.len() - 1;
    assert(v.tally.actions[last] == action_for(plan, v.at as int));
}

/// What is on record stays there, whatever happens, except for a file that was
/// just about to be created by an operation that failed and left none. So an
/// interrupted run leaves no file that a reversal does not know.
pub proof fn files_stay_on_record(v: RunView, plan: Plan, rewrites: bool, event: Event)
    requires
        in_order(v, plan),
    ensures
        v.tally.actions.is_prefix_of(run_step(v, plan, rewrites, event).tally.actions) || (
        v.task matches Task::Place(op) && (event matches Event::Failed { left, .. } && !(left
            && may_leave_a_file(op))) && v.tally.actions.drop_last() == run_step(v, plan, rewrites, event).tally.actions
            && v.tally.actions.last() == action_for(plan, v.at as int)),
{
    let now = run_step(v, plan, rewrites, event).tally.actions;
    if v.tally.actions.len() <= now.len() {
        assert(v.tally.actions =~= now.take(v.tally.actions.len() as int));
    }
}

// ---------------------------------------------------------------------------
// The record
// ---------------------------------------------------------------------------

/// A moment printed by a pattern of `strftime`.
pub uninterp spec fn time_text(seconds: i64, nanos: u32, pattern: Seq<char>) -> Option<Seq<char>>;

/// `DateTime::from_timestamp` of `chrono`, and `DateTime::format` of what it
/// gives, written out: nothing if the moment is out of range or the pattern is
/// none. Universal time is printed, so neither the machine nor the place has a
/// part in it. Nothing is said of the words themselves.
#[verifier::external_body]
fn print_time(seconds: i64, nanos: u32, pattern: &str) -> (r: Option<String>)
    ensures
        text::opt_text(r) == time_text(seconds, nanos, pattern@),
{
    let mut out = String::new();
    let moment = chrono::DateTime::from_timestamp(seconds, nanos)?;
    write!(out, "{}", moment.format(pattern)).ok()?;
    Some(out)
}

pub const STAMP: &'static str = "%Y%m%dT%H%M%SZ";

/// Where the record of a run goes, given the moment it began as text.
pub open spec fn record_path(work_dir: Seq<char>, stamp: Seq<char>) -> Seq<char> {
    paths::join(work_dir, "undo-"@ + stamp + ".json"@)
}

pub fn record_file(work_dir: &str, stamp: &str) -> (r: String)
    ensures
        r@ == record_path(work_dir@, stamp@),
{
    let mut name = own("undo-");
    name.append(stamp);
    name.append(".json");
    join_paths(work_dir, name.as_str())
}

/// Where the record of a run goes; nothing if the moment it began has no date.
pub fn record_file_at(work_dir: &str, created: Timestamp) -> (r: Option<String>)
    ensures
        text::opt_text(r) == (match time_text(created.seconds, created.nanos, STAMP@) {
            Some(stamp) => Some(record_path(work_dir@, stamp)),
            None => None,
        }),
{
    match print_time(created.seconds, created.nanos, STAMP) {
        Some(stamp) => Some(record_file(work_dir, stamp.as_str())),
        None => None,
    }
}

/// Whether a file in the work directory is the record of a run, by its name.
pub open spec fn is_record(path: Seq<char>) -> bool {
    match paths::file_name(path) {
        Some(name) => text::starts_with(name, "undo-"@) && text::ends_with(name, ".json"@),
        None => false,
    }
}

fn record_name(path: &str) -> (r: bool)
    ensures
        r == is_record(path@),
{
    match name_of(path) {
        Some(name) => {
            let cs = chars_of(name.as_str());
            let head = chars_of("undo-");
            let tail = chars_of(".json");
            let at_start = stands_at(cs.as_slice(), head.as_slice(), 0);
            let at_end = tail.len() <= cs.len() && stands_at(
                cs.as_slice(),
                tail.as_slice(),
                cs.len() - tail.len(),
            );
            at_start && at_end
        },
        None => false,
    }
}

/// The record of a run is known for one, whenever the run began and wherever its work
/// directory is.
pub proof fn records_are_known_by_their_names(work_dir: Seq<char>, stamp: Seq<char>)
    requires
        forall|i: int| 0 <= i < stamp.len() ==> #[trigger] stamp[i] != '/',
    ensures
        is_record(record_path(work_dir, stamp)),
        paths::parent(record_path(work_dir, stamp)) matches Some(above) && paths::same_path(
            above,
            work_dir,
        ),
{
    let name = "undo-"@ + stamp + ".json"@;
    reveal_strlit("undo-");
    reveal_strlit(".json");
    assert forall|i: int| 0 <= i < name.len() implies #[trigger] name[i] != '/' by {
        if 5 <= i < 5 + stamp.len() {
            assert(name[i] == stamp[i - 5]);
        }
    }
    assert(name[0] == 'u');
    paths::a_joined_name_leads_back(work_dir, name);
    assert(name.subrange(0, 5) =~= "undo-"@);
    assert(name.subrange(name.len() - 5, name.len() as int) =~= ".json"@);
}

pub const NO_RECORD: &'static str = "no undo manifest found; nothing to reverse";

/// The most recent record among some files: the last in path order, since a
/// record's name tells when its run began.
pub fn latest_manifest(files: &Vec<String>) -> (r: Result<String, String>)
    ensures
        match r {
            Ok(path) => {
                &&& text::texts(files@).contains(path@)
                &&& is_record(path@)
                &&& forall|i: int|
                    0 <= i < files@.len() && is_record((#[trigger] files@[i])@)
                        ==> !paths::path_before(path@, files@[i]@)
            },
            Err(why) => {
                &&& why@ == NO_RECORD@
                &&& forall|i: int| 0 <= i < files@.len() ==> !is_record((#[trigger] files@[i])@)
            },
        },
{
    let mut best: Option<usize> = None;
    let mut i: usize = 0;
    while i < files.len()
        invariant
            i <= files@.len(),
            match best {
                Some(b) => {
                    &&& b < i
                    &&& is_record(files@[b as int]@)
                    &&& forall|j: int|
                        0 <= j < i && is_record((#[trigger] files@[j])@) ==> !paths::path_before(
                            files@[b as int]@,
                            files@[j]@,
                        )
                },
                None => forall|j: int| 0 <= j < i ==> !is_record((#[trigger] files@[j])@),
            },
        decreases files@.len() - i,
    {
        if record_name(files[i].as_str()) {
            let newer = match best {
                Some(b) => comes_before(
                    path_key_of(files[b].as_str()).as_slice(),
                    path_key_of(files[i].as_str()).as_slice(),
                ),
                None => true,
            };
            if newer {
                proof {
                    order::lemma_lex_irreflexive(paths::path_key(files@[i as int]@));
                    if let Some(b) = best {
                        assert forall|j: int|
                            0 <= j < i + 1 && is_record((#[trigger] files@[j])@) implies !paths::path_before(
                            files@[i as int]@,
                            files@[j]@,
                        ) by {
                            if j < i && paths::path_before(files@[i as int]@, files@[j]@) {
                                order::lemma_lex_transitive(
                                    paths::path_key(files@[b as int]@),
                                    paths::path_key(files@[i as int]@),
                                    paths::path_key(files@[j]@),
                                );
                            }
                        }
                    }
                }
                best = Some(i);
            }
        }
        i = i + 1;
    }
    match best {
        Some(b) => {
            assert(text::texts(files@)[b as int] == files@[b as int]@);
            Ok(files[b].clone())
        },
        None => Err(own(NO_RECORD)),
    }
}

// ---------------------------------------------------------------------------
// Reversing a run
// ---------------------------------------------------------------------------

/// What is done about a file on record.
#[derive(Clone, Copy, PartialEq, Eq, Structural)]
pub enum UndoStep {
    /// It is gone already.
    Skip,
    /// Its original place is occupied, so it stays where it is.
    Refuse,
    /// Put it back where it came from.
    PutBack,
    Remove,
}

pub open spec fn undo_of(mode: LinkMode, created_exists: bool, original_exists: bool) -> UndoStep {
    if !created_exists {
        UndoStep::Skip
    } else if mode != LinkMode::Move {
        UndoStep::Remove
    } else if original_exists {
        UndoStep::Refuse
    } else {
        UndoStep::PutBack
    }
}

pub fn undo_step(mode: LinkMode, created_exists: bool, original_exists: bool) -> (r: UndoStep)
    ensures
        r == undo_of(mode, created_exists, original_exists),
        r == UndoStep::Skip <==> !created_exists,
        r == UndoStep::Remove <==> created_exists && mode != LinkMode::Move,
        r == UndoStep::PutBack <==> created_exists && mode == LinkMode::Move && !original_exists,
        r == UndoStep::Refuse <==> created_exists && mode == LinkMode::Move && original_exists,
{
    if !created_exists {
        UndoStep::Skip
    } else {
        match mode {
            LinkMode::Move => if original_exists {
                UndoStep::Refuse
            } else {
                UndoStep::PutBack
            },
            _ => UndoStep::Remove,
        }
    }
}

/// What is said when a file cannot be put back.
pub open spec fn occupied(action: UndoActionView) -> Seq<char> {
    action.original + " already exists; leaving "@ + action.created + " in place"@
}

pub fn refusal(action: &UndoAction) -> (r: String)
    ensures
        r@ == occupied(action@),
{
    let mut out = action.original.clone();
    out.append(" already exists; leaving ");
    out.append(action.created.as_str());
    out.append(" in place");
    out
}

/// What is to be done next about the file in hand.
#[derive(Debug, Clone, Copy, PartialEq, Eq, Structural)]
pub enum UndoTask {
    /// See whether it is there, and whether its original place is occupied.
    Inspect,
    /// Put it back where it came from.
    PutBack,
    Remove,
    /// There is no file left.
    Finished,
}

/// Where a reversal stands.
pub struct UndoView {
    /// How many files are left. The one in hand is the last of these: what was
    /// done last is reversed first.
    pub left: nat,
    pub task: UndoTask,
    pub reversed: nat,
    pub problems: Seq<Seq<char>>,
}

/// On to the next file.
pub open spec fn next_action(v: UndoView) -> UndoView {
    UndoView {
        left: (v.left - 1) as nat,
        task: if v.left > 1 {
            UndoTask::Inspect
        } else {
            UndoTask::Finished
        },
        ..v
    }
}

/// The file in hand stays where it is, for a reason.
pub open spec fn with_problem(v: UndoView, record: UndoManifest, why: Seq<char>) -> UndoView {
    next_action(
        UndoView {
            problems: v.problems.push(record.actions@[v.left - 1].created@ + ": "@ + why),
            ..v
        },
    )
}

pub open spec fn undo_inspected(
    v: UndoView,
    record: UndoManifest,
    created_exists: bool,
    original_exists: bool,
) -> UndoView {
    if v.task != UndoTask::Inspect {
        v
    } else {
        match undo_of(record.mode, created_exists, original_exists) {
            UndoStep::Skip => next_action(v),
            UndoStep::Refuse => with_problem(v, record, occupied(record.actions@[v.left - 1]@)),
            UndoStep::PutBack => UndoView { task: UndoTask::PutBack, ..v },
            UndoStep::Remove => UndoView { task: UndoTask::Remove, ..v },
        }
    }
}

pub open spec fn undo_performed(
    v: UndoView,
    record: UndoManifest,
    outcome: Result<(), String>,
) -> UndoView {
    if v.task != UndoTask::PutBack && v.task != UndoTask::Remove {
        v
    } else {
        match outcome {
            Ok(_) => next_action(UndoView { reversed: v.reversed + 1, ..v }),
            Err(why) => with_problem(v, record, why@),
        }
    }
}

/// What holds of a reversal at every moment: no file is counted twice.
pub open spec fn undoes(v: UndoView, record: UndoManifest) -> bool {
    &&& v.task == UndoTask::Finished <==> v.left == 0
    &&& v.reversed + v.problems.len() + v.left <= record.actions@.len()
}

/// A reversal under way: how many files were reversed, and what went wrong.
pub struct Undoing {
    left: usize,
    task: UndoTask,
    reversed: usize,
    problems: Vec<String>,
}

impl View for Undoing {
    type V = UndoView;

    closed spec fn view(&self) -> UndoView {
        UndoView {
            left: self.left as nat,
            task: self.task,
            reversed: self.reversed as nat,
            problems: text::texts(self.problems@),
        }
    }
}

/// Where the reversal of a record begins.
pub open spec fn undo_begun(record: UndoManifest) -> UndoView {
    UndoView {
        left: record.actions@.len(),
        task: if record.actions@.len() > 0 {
            UndoTask::Inspect
        } else {
            UndoTask::Finished
        },
        reversed: 0,
        problems: seq![],
    }
}

impl Undoing {
    pub fn new(record: &UndoManifest) -> (r: Self)
        ensures
            r@ == undo_begun(*record),
            undoes(r@, *record),
    {
        let run = Undoing {
            left: record.actions.len(),
            task: if record.actions.len() > 0 {
                UndoTask::Inspect
            } else {
                UndoTask::Finished
            },
            reversed: 0,
            problems: Vec::new(),
        };
        assert(run@.problems =~= seq![]);
        run
    }

    /// What to do next.
    pub fn task(&self) -> (r: UndoTask)
        ensures
            r == self@.task,
    {
        self.task
    }

    /// The file in hand, by its place in the record.
    pub fn in_hand(&self) -> (r: Option<usize>)
        ensures
            match r {
                Some(i) => i + 1 == self@.left,
                None => self@.left == 0,
            },
    {
        if self.left == 0 {
            None
        } else {
            Some(self.left - 1)
        }
    }

    fn advance(&mut self)
        requires
            old(self)@.left > 0,
        ensures
            final(self)@ == next_action(old(self)@),
    {
        self.left = self.left - 1;
        self.task = if self.left > 0 {
            UndoTask::Inspect
        } else {
            UndoTask::Finished
        };
    }

    fn complain(&mut self, record: &UndoManifest, why: &str)
        requires
            0 < old(self)@.left <= record.actions@.len(),
        ensures
            final(self)@ == with_problem(old(self)@, *record, why@),
    {
        let mut problem = record.actions[self.left - 1].created.clone();
        problem.append(": ");
        problem.append(why);
        let ghost before = self.problems@;
        self.problems.push(problem);
        assert(text::texts(self.problems@) =~= text::texts(before).push(problem@));
        self.advance();
    }

    /// Take in what was seen of the file in hand.
    pub fn inspected(&mut self, record: &UndoManifest, created_exists: bool, original_exists: bool)
        requires
            undoes(old(self)@, *record),
        ensures
            final(self)@ == undo_inspected(
                old(self)@,
                *record,
                created_exists,
                original_exists,
            ),
            undoes(final(self)@, *record),
    {
        match self.task {
            UndoTask::Inspect => match undo_step(record.mode, created_exists, original_exists) {
                UndoStep::Skip => self.advance(),
                UndoStep::Refuse => {
                    let why = refusal(&record.actions[self.left - 1]);
                    self.complain(record, why.as_str());
                },
                UndoStep::PutBack => {
                    self.task = UndoTask::PutBack;
                },
                UndoStep::Remove => {
                    self.task = UndoTask::Remove;
                },
            },
            _ => {},
        }
    }

    /// Take in whether the file in hand was put back or removed.
    pub fn performed(&mut self, record: &UndoManifest, outcome: Result<(), String>)
        requires
            undoes(old(self)@, *record),
        ensures
            final(self)@ == undo_performed(old(self)@, *record, outcome),
            undoes(final(self)@, *record),
    {
        let asked = match self.task {
            UndoTask::PutBack => true,
            UndoTask::Remove => true,
            _ => false,
        };
        if !asked {
            return;
        }
        match outcome {
            Ok(_) => {
                let total: usize = record.actions.len();
                assert(self.reversed < total);
                self.reversed = self.reversed + 1;
                self.advance();
            },
            Err(why) => self.complain(record, why.as_str()),
        }
    }

    /// How many files were reversed, and what went wrong.
    pub fn finish(self) -> (r: (usize, Vec<String>))
        ensures
            r.0 == self@.reversed,
            text::texts(r.1@) == self@.problems,
    {
        (self.reversed, self.problems)
    }
}

// ---------------------------------------------------------------------------
// A reversal restores the files
// ---------------------------------------------------------------------------

/// What became of a file on record: whether it was created, and what was written
/// into it afterwards, if anything was.
pub struct Deed {
    pub action: UndoActionView,
    pub created: bool,
    pub wrote: Option<Seq<u8>>,
}

/// What is on record of some deeds.
pub open spec fn recorded(deeds: Seq<Deed>) -> Seq<UndoActionView> {
    Seq::new(deeds.len(), |i: int| deeds[i].action)
}

/// The files there are, by the key of their path, and what they hold, after a
/// deed.
pub open spec fn files_after(
    files: Map<Seq<i128>, Seq<u8>>,
    deed: Deed,
    mode: LinkMode,
) -> Map<Seq<i128>, Seq<u8>> {
    let created = paths::path_key(deed.action.created);
    let original = paths::path_key(deed.action.original);
    let bytes = match deed.wrote {
        Some(bytes) => bytes,
        None => files[original],
    };
    if !deed.created {
        files
    } else if mode == LinkMode::Move {
        files.remove(original).insert(created, bytes)
    } else {
        files.insert(created, bytes)
    }
}

/// The files after a run.
pub open spec fn after_run(
    files: Map<Seq<i128>, Seq<u8>>,
    deeds: Seq<Deed>,
    mode: LinkMode,
) -> Map<Seq<i128>, Seq<u8>>
    decreases deeds.len(),
{
    if deeds.len() == 0 {
        files
    } else {
        files_after(after_run(files, deeds.drop_last(), mode), deeds.last(), mode)
    }
}

/// Whether a run could do this: each time the destination was not there, and the
/// source was if the file was created.
pub open spec fn could_run(
    files: Map<Seq<i128>, Seq<u8>>,
    deeds: Seq<Deed>,
    mode: LinkMode,
) -> bool
    decreases deeds.len(),
{
    if deeds.len() == 0 {
        true
    } else {
        let before = after_run(files, deeds.drop_last(), mode);
        let action = deeds.last().action;
        &&& could_run(files, deeds.drop_last(), mode)
        &&& !before.contains_key(paths::path_key(action.created))
        &&& deeds.last().created ==> before.contains_key(paths::path_key(action.original))
    }
}

/// What a reversal does about a file on record when there are some files.
pub open spec fn reversal_of(
    files: Map<Seq<i128>, Seq<u8>>,
    action: UndoActionView,
    mode: LinkMode,
) -> UndoStep {
    undo_of(
        mode,
        files.contains_key(paths::path_key(action.created)),
        files.contains_key(paths::path_key(action.original)),
    )
}

/// The files after one file on record is reversed.
pub open spec fn files_undone(
    files: Map<Seq<i128>, Seq<u8>>,
    action: UndoActionView,
    mode: LinkMode,
) -> Map<Seq<i128>, Seq<u8>> {
    let created = paths::path_key(action.created);
    let original = paths::path_key(action.original);
    match reversal_of(files, action, mode) {
        UndoStep::Skip => files,
        UndoStep::Refuse => files,
        UndoStep::PutBack => files.remove(created).insert(original, files[created]),
        UndoStep::Remove => files.remove(created),
    }
}

/// The files after a whole record is reversed, last things first.
pub open spec fn after_undo(
    files: Map<Seq<i128>, Seq<u8>>,
    actions: Seq<UndoActionView>,
    mode: LinkMode,
) -> Map<Seq<i128>, Seq<u8>>
    decreases actions.len(),
{
    if actions.len() == 0 {
        files
    } else {
        after_undo(files_undone(files, actions.last(), mode), actions.drop_last(), mode)
    }
}

/// Where a reversal that finds these files ends: everything that is asked of it
/// succeeds.
pub open spec fn undo_ends(
    v: UndoView,
    record: UndoManifest,
    files: Map<Seq<i128>, Seq<u8>>,
    left: nat,
) -> UndoView
    decreases left,
{
    if left == 0 {
        v
    } else {
        let action = record.actions@[left - 1]@;
        let seen = undo_inspected(
            v,
            record,
            files.contains_key(paths::path_key(action.created)),
            files.contains_key(paths::path_key(action.original)),
        );
        undo_ends(
            undo_performed(seen, record, Ok(())),
            record,
            files_undone(files, action, record.mode),
            (left - 1) as nat,
        )
    }
}

/// How many files a run created.
pub open spec fn created_count(deeds: Seq<Deed>) -> nat
    decreases deeds.len(),
{
    if deeds.len() == 0 {
        0
    } else {
        created_count(deeds.drop_last()) + (if deeds.last().created {
            1nat
        } else {
            0nat
        })
    }
}

/// Where a file that stood at `key` stands after a run.
pub open spec fn run_leaves_at(deeds: Seq<Deed>, mode: LinkMode, key: Seq<i128>) -> Seq<i128>
    decreases deeds.len(),
{
    if deeds.len() == 0 {
        key
    } else {
        let at = run_leaves_at(deeds.drop_last(), mode, key);
        let last = deeds.last();
        if mode == LinkMode::Move && last.created && at == paths::path_key(last.action.original) {
            paths::path_key(last.action.created)
        } else {
            at
        }
    }
}

/// Whether nothing was written into a file that a run moved.
pub open spec fn moves_untouched(deeds: Seq<Deed>, mode: LinkMode) -> bool {
    mode == LinkMode::Move ==> forall|i: int|
        0 <= i < deeds.len() ==> (#[trigger] deeds[i]).wrote is None
}

/// A run loses no file: every file there was is there afterwards, each in a place
/// of its own, and holds what it held, unless it was moved and written into. Only
/// a move changes its place.
pub proof fn a_run_loses_no_file(
    files: Map<Seq<i128>, Seq<u8>>,
    deeds: Seq<Deed>,
    mode: LinkMode,
    key: Seq<i128>,
    other: Seq<i128>,
)
    requires
        could_run(files, deeds, mode),
        files.contains_key(key),
        files.contains_key(other),
    ensures
        after_run(files, deeds, mode).contains_key(run_leaves_at(deeds, mode, key)),
        moves_untouched(deeds, mode) ==> after_run(files, deeds, mode)[run_leaves_at(
            deeds,
            mode,
            key,
        )] == files[key],
        key != other ==> run_leaves_at(deeds, mode, key) != run_leaves_at(deeds, mode, other),
        mode != LinkMode::Move ==> run_leaves_at(deeds, mode, key) == key,
    decreases deeds.len(),
{
    if deeds.len() > 0 {
        let part = deeds.drop_last();
        a_run_loses_no_file(files, part, mode, key, other);
        a_run_loses_no_file(files, part, mode, other, key);
        if moves_untouched(deeds, mode) {
            assert forall|i: int| mode == LinkMode::Move && 0 <= i < part.len() implies (
            #[trigger] part[i]).wrote is None by {
                assert(part[i] == deeds[i]);
            }
            assert(deeds.last() == deeds[deeds.len() - 1]);
            assert(moves_untouched(part, mode));
        }
    }
}

/// The last deed of a run is undone by one step of a reversal, which leaves the
/// files that were there before it, with what they hold now.
proof fn lemma_undo_one(
    before: Map<Seq<i128>, Seq<u8>>,
    deed: Deed,
    mode: LinkMode,
    left: Map<Seq<i128>, Seq<u8>>,
)
    requires
        !before.contains_key(paths::path_key(deed.action.created)),
        deed.created ==> before.contains_key(paths::path_key(deed.action.original)),
        left.dom() == files_after(before, deed, mode).dom(),
    ensures
        files_undone(left, deed.action, mode).dom() == before.dom(),
        forall|j: Seq<i128>| #[trigger]
            before.contains_key(j) ==> files_undone(left, deed.action, mode)[j] == left[if mode
                == LinkMode::Move && deed.created && j == paths::path_key(deed.action.original) {
                paths::path_key(deed.action.created)
            } else {
                j
            }],
        reversal_of(left, deed.action, mode) == (if !deed.created {
            UndoStep::Skip
        } else if mode == LinkMode::Move {
            UndoStep::PutBack
        } else {
            UndoStep::Remove
        }),
{
    let run = files_after(before, deed, mode);
    let created = paths::path_key(deed.action.created);
    let original = paths::path_key(deed.action.original);
    assert forall|k: Seq<i128>| left.contains_key(k) == run.contains_key(k) by {
        assert(left.dom().contains(k) == run.dom().contains(k));
    }
    assert(left.contains_key(created) == run.contains_key(created));
    assert(left.contains_key(original) == run.contains_key(original));
    let done = files_undone(left, deed.action, mode);
    assert forall|k: Seq<i128>| #[trigger] done.dom().contains(k) == before.dom().contains(k) by {
        assert(left.contains_key(k) == run.contains_key(k));
    }
    assert(done.dom() =~= before.dom());
}

/// Reversing a run restores the files: there are the same files as before the
/// run, whatever is in them by now, and each holds what is in the file that it
/// became. So if nothing was written into a file that was moved, and nothing was
/// changed since the run, all is as it was.
pub proof fn undo_restores_the_files(
    files: Map<Seq<i128>, Seq<u8>>,
    deeds: Seq<Deed>,
    mode: LinkMode,
    left: Map<Seq<i128>, Seq<u8>>,
)
    requires
        could_run(files, deeds, mode),
        left.dom() == after_run(files, deeds, mode).dom(),
    ensures
        after_undo(left, recorded(deeds), mode).dom() == files.dom(),
        forall|k: Seq<i128>| #[trigger]
            files.contains_key(k) ==> after_undo(left, recorded(deeds), mode)[k]
                == left[run_leaves_at(deeds, mode, k)],
        left == after_run(files, deeds, mode) && moves_untouched(deeds, mode) ==> after_undo(
            left,
            recorded(deeds),
            mode,
        ) == files,
    decreases deeds.len(),
{
    let actions = recorded(deeds);
    let done = after_undo(left, actions, mode);
    if deeds.len() > 0 {
        let part = deeds.drop_last();
        let before = after_run(files, part, mode);
        let mid = files_undone(left, deeds.last().action, mode);
        lemma_undo_one(before, deeds.last(), mode, left);
        assert(actions.last() == deeds.last().action);
        assert(actions.drop_last() =~= recorded(part));
        undo_restores_the_files(files, part, mode, mid);
        assert forall|k: Seq<i128>| #[trigger] files.contains_key(k) implies done[k]
            == left[run_leaves_at(deeds, mode, k)] by {
            a_run_loses_no_file(files, part, mode, k, k);
            let at = run_leaves_at(part, mode, k);
            assert(before.contains_key(at));
            assert(done[k] == mid[at]);
        }
    }
    if left == after_run(files, deeds, mode) && moves_untouched(deeds, mode) {
        assert forall|k: Seq<i128>| #[trigger] files.contains_key(k) implies done[k]
            == files[k] by {
            a_run_loses_no_file(files, deeds, mode, k, k);
        }
        assert(done =~= files);
    }
}

proof fn lemma_undo_ends(
    files: Map<Seq<i128>, Seq<u8>>,
    deeds: Seq<Deed>,
    record: UndoManifest,
    left: Map<Seq<i128>, Seq<u8>>,
    v: UndoView,
)
    requires
        could_run(files, deeds, record.mode),
        left.dom() == after_run(files, deeds, record.mode).dom(),
        deeds.len() <= record.actions@.len(),
        forall|i: int| 0 <= i < deeds.len() ==> record.actions@[i]@ == (#[trigger] deeds[i]).action,
        v.left == deeds.len(),
        v.task == (if deeds.len() > 0 {
            UndoTask::Inspect
        } else {
            UndoTask::Finished
        }),
    ensures
        undo_ends(v, record, left, deeds.len()) == (UndoView {
            left: 0,
            task: UndoTask::Finished,
            reversed: v.reversed + created_count(deeds),
            ..v
        }),
    decreases deeds.len(),
{
    if deeds.len() > 0 {
        let part = deeds.drop_last();
        let last = deeds[deeds.len() - 1];
        let before = after_run(files, part, record.mode);
        lemma_undo_one(before, deeds.last(), record.mode, left);
        let action = record.actions@[deeds.len() - 1]@;
        assert(action == last.action);
        let seen = undo_inspected(
            v,
            record,
            left.contains_key(paths::path_key(action.created)),
            left.contains_key(paths::path_key(action.original)),
        );
        let next = undo_performed(seen, record, Ok(()));
        assert forall|i: int| 0 <= i < part.len() implies record.actions@[i]@ == (
        #[trigger] part[i]).action by {
            assert(part[i] == deeds[i]);
        }
        lemma_undo_ends(files, part, record, files_undone(left, action, record.mode), next);
    }
}

/// A reversal that finds the files a run left counts every file that the run
/// created as reversed, and has nothing to complain of.
pub proof fn every_created_file_is_reversed(
    files: Map<Seq<i128>, Seq<u8>>,
    deeds: Seq<Deed>,
    record: UndoManifest,
    left: Map<Seq<i128>, Seq<u8>>,
)
    requires
        could_run(files, deeds, record.mode),
        left.dom() == after_run(files, deeds, record.mode).dom(),
        action_views(record.actions@) == recorded(deeds),
    ensures
        undo_ends(undo_begun(record), record, left, record.actions@.len()) == (UndoView {
            left: 0,
            task: UndoTask::Finished,
            reversed: created_count(deeds),
            problems: seq![],
        }),
{
    assert(action_views(record.actions@).len() == record.actions@.len());
    assert(recorded(deeds).len() == deeds.len());
    assert forall|i: int| 0 <= i < deeds.len() implies record.actions@[i]@ == (
    #[trigger] deeds[i]).action by {
        let listed = action_views(record.actions@);
        assert(listed.len() == deeds.len());
        assert(listed[i] == record.actions@[i]@ && recorded(deeds)[i] == deeds[i].action);
    }
    lemma_undo_ends(files, deeds, record, left, undo_begun(record));
}

/// Where a file that stood at `key` stands after a record of moves is reversed.
pub open spec fn undo_leaves_at(
    files: Map<Seq<i128>, Seq<u8>>,
    actions: Seq<UndoActionView>,
    key: Seq<i128>,
) -> Seq<i128>
    decreases actions.len(),
{
    if actions.len() == 0 {
        key
    } else {
        let last = actions.last();
        let at = if key == paths::path_key(last.created) && reversal_of(
            files,
            last,
            LinkMode::Move,
        ) == UndoStep::PutBack {
            paths::path_key(last.original)
        } else {
            key
        };
        undo_leaves_at(files_undone(files, last, LinkMode::Move), actions.drop_last(), at)
    }
}

/// Whether a path is created by one of some actions.
pub open spec fn creates(actions: Seq<UndoActionView>, key: Seq<i128>) -> bool {
    exists|i: int| 0 <= i < actions.len() && paths::path_key((#[trigger] actions[i]).created) == key
}

/// Reversing a record loses no file, whatever has become of the files since the
/// run: where it moved files, each one there was is there afterwards and holds
/// what it held, in a place of its own; otherwise only files on record are
/// removed.
pub proof fn a_reversal_loses_no_file(
    files: Map<Seq<i128>, Seq<u8>>,
    actions: Seq<UndoActionView>,
    mode: LinkMode,
    key: Seq<i128>,
    other: Seq<i128>,
)
    requires
        files.contains_key(key),
        files.contains_key(other),
    ensures
        mode == LinkMode::Move ==> {
            &&& after_undo(files, actions, mode).contains_key(undo_leaves_at(files, actions, key))
            &&& after_undo(files, actions, mode)[undo_leaves_at(files, actions, key)] == files[key]
            &&& key != other ==> undo_leaves_at(files, actions, key) != undo_leaves_at(
                files,
                actions,
                other,
            )
        },
        mode != LinkMode::Move && !creates(actions, key) ==> {
            &&& after_undo(files, actions, mode).contains_key(key)
            &&& after_undo(files, actions, mode)[key] == files[key]
        },
    decreases actions.len(),
{
    if actions.len() > 0 {
        let last = actions.last();
        let part = actions.drop_last();
        let next = files_undone(files, last, mode);
        if mode == LinkMode::Move {
            let back = reversal_of(files, last, mode) == UndoStep::PutBack;
            let created = paths::path_key(last.created);
            let a = if key == created && back {
                paths::path_key(last.original)
            } else {
                key
            };
            let b = if other == created && back {
                paths::path_key(last.original)
            } else {
                other
            };
            assert(next.contains_key(a) && next[a] == files[key]);
            assert(next.contains_key(b));
            assert(key != other ==> a != b);
            a_reversal_loses_no_file(next, part, mode, a, b);
        } else if !creates(actions, key) {
            assert(actions[actions.len() - 1] == last);
            assert(paths::path_key(last.created) != key);
            assert(!creates(part, key)) by {
                if creates(part, key) {
                    let i = choose|i: int|
                        0 <= i < part.len() && paths::path_key((#[trigger] part[i]).created) == key;
                    assert(paths::path_key(actions[i].created) == key);
                }
            }
            a_reversal_loses_no_file(next, part, mode, key, key);
        }
    }
}

} // verus!
