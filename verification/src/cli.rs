//! What the commands decide and what they say. Asking the machine and printing
//! are left to the caller.

use crate::apply;
use crate::apply::Report;
use crate::chapters::Indexing;
use crate::config::Config;
use crate::float;
use crate::float::{Format, count_gigabytes, print_decimal};
use crate::number;
use crate::number::{decimal_usize, decimal_wide};
use crate::order;
use crate::order::insert_ascending;
use crate::paths;
use crate::paths::join_paths;
use crate::pipeline;
use crate::text;
use crate::text::{chars_of, copy_range, lowercase, own, position, same, text_of, trim_text};
use vstd::prelude::*;
use vstd::string::StringExecFns;

verus! {

// ---------------------------------------------------------------------------
// Configuration and backends
// ---------------------------------------------------------------------------

/// What the command line says about the configuration.
pub struct Overrides {
    /// Whether a configuration file was named.
    pub config_given: bool,
    pub source: Option<String>,
    pub library: Option<String>,
    pub work_dir: Option<String>,
    pub model: Option<String>,
}

pub open spec fn text_unless(given: Option<String>, otherwise: Seq<char>) -> Seq<char> {
    match given {
        Some(t) => t@,
        None => otherwise,
    }
}

/// Where the library goes. It defaults to living inside the work directory, and
/// that relationship is kept unless it was set explicitly.
pub open spec fn resolved_library(base: Seq<char>, o: Overrides) -> Seq<char> {
    match (o.library, o.work_dir) {
        (Some(library), _) => library@,
        (None, Some(dir)) => if o.config_given {
            base
        } else {
            paths::join(dir@, "library"@)
        },
        (None, None) => base,
    }
}

/// The configuration to work with: command line flags win over the file.
pub fn resolve_config(base: Config, o: &Overrides) -> (r: Config)
    ensures
        r.source@ == text_unless(o.source, base.source@),
        r.library@ == resolved_library(base.library@, *o),
        o.library matches Some(given) ==> r.library@ == given@,
        o.library is None && (o.work_dir is None || o.config_given) ==> r.library@
            == base.library@,
        o.library is None && !o.config_given ==> (o.work_dir matches Some(dir) ==> r.library@
            == paths::join(dir@, "library"@)),
        o.source matches Some(given) ==> r.source@ == given@,
        o.work_dir matches Some(given) ==> r.work_dir@ == given@,
        o.model matches Some(given) ==> r.model.path@ == given@,
        r.work_dir@ == text_unless(o.work_dir, base.work_dir@),
        r.model.path@ == text_unless(o.model, base.model.path@),
        r.model.gpu_layers == base.model.gpu_layers,
        r.model.context == base.model.context,
        r.model.max_tokens == base.model.max_tokens,
        r.model.seed == base.model.seed,
        r.model.template == base.model.template,
        r.extract == base.extract,
        r.vision == base.vision,
        r.taxonomy == base.taxonomy,
        r.dedupe == base.dedupe,
        r.bookmarks == base.bookmarks,
        r.systems == base.systems,
{
    let mut cfg = base;
    if let Some(source) = &o.source {
        cfg.source = source.clone();
    }
    if let Some(library) = &o.library {
        cfg.library = library.clone();
    }
    if let Some(dir) = &o.work_dir {
        cfg.work_dir = dir.clone();
        if o.library.is_none() && !o.config_given {
            cfg.library = join_paths(dir.as_str(), "library");
        }
    }
    if let Some(model) = &o.model {
        cfg.model.path = model.clone();
    }
    cfg
}

#[derive(Debug, Clone, Copy, PartialEq, Eq, Structural)]
pub enum Backend {
    /// Use the model if one is available, otherwise fall back to rules.
    Auto,
    /// Local GGUF model on the GPU.
    Llama,
    /// Keyword rules. No model, no GPU.
    Heuristic,
}

/// How a backend is come by.
#[derive(Debug, Clone, Copy, PartialEq, Eq, Structural)]
pub enum Choice {
    Rules,
    /// Load the model, or fail.
    Model,
    /// Load the model, or fall back to the rules.
    ModelOrRules,
}

pub const NO_LLAMA: &'static str =
    "this binary was built without the llama backend; rebuild with --features cuda";

/// Which backend to load, given whether the model backend is built in and
/// whether its model file is there.
pub fn choose_backend(backend: Backend, built: bool, model_exists: bool) -> (r: Result<Choice, String>)
    ensures
        match backend {
            Backend::Heuristic => r == Ok::<Choice, String>(Choice::Rules),
            Backend::Llama => if built {
                r == Ok::<Choice, String>(Choice::Model)
            } else {
                r matches Err(why) && why@ == NO_LLAMA@
            },
            Backend::Auto => r == Ok::<Choice, String>(
                if built && model_exists {
                    Choice::ModelOrRules
                } else {
                    Choice::Rules
                },
            ),
        },
{
    match backend {
        Backend::Heuristic => Ok(Choice::Rules),
        Backend::Llama => if built {
            Ok(Choice::Model)
        } else {
            Err(own(NO_LLAMA))
        },
        Backend::Auto => if built && model_exists {
            Ok(Choice::ModelOrRules)
        } else {
            Ok(Choice::Rules)
        },
    }
}

/// Whether to load the vision backend.
#[derive(Debug, Clone, Copy, PartialEq, Eq, Structural)]
pub enum Sight {
    /// It is not asked for.
    Unwanted,
    /// Its files are missing.
    Missing,
    Load,
}

/// Whether to load the vision backend. Its absence is no error: without it,
/// text-poor PDFs simply fall back to being judged by file name.
pub fn choose_sight(
    backend: Backend,
    built: bool,
    enabled: bool,
    model_exists: bool,
    projector_exists: bool,
) -> (r: Sight)
    ensures
        r == (if !built || !enabled || backend == Backend::Heuristic {
            Sight::Unwanted
        } else if !model_exists || !projector_exists {
            Sight::Missing
        } else {
            Sight::Load
        }),
{
    let rules_only = match backend {
        Backend::Heuristic => true,
        _ => false,
    };
    if !built || !enabled || rules_only {
        Sight::Unwanted
    } else if !model_exists || !projector_exists {
        Sight::Missing
    } else {
        Sight::Load
    }
}

/// Whether an answer in lower case, without blanks around it, is a yes.
pub fn is_yes(answer: &str) -> (r: bool)
    ensures
        r == (answer@ == "y"@ || answer@ == "yes"@),
{
    same(answer, "y") || same(answer, "yes")
}

/// Whether an answer as it was typed is a yes.
pub fn confirms(answer: &str) -> (r: bool)
    ensures
        r == (text::lowered(text::trim(answer@)) == "y"@ || text::lowered(text::trim(answer@)) == "yes"@),
{
    is_yes(lowercase(trim_text(answer).as_str()).as_str())
}

// ---------------------------------------------------------------------------
// Reasons, told once each
// ---------------------------------------------------------------------------

/// A reason without its particulars: "grew from 4 to 9 bytes" and "grew from 5
/// to 11" are one story.
pub open spec fn story(why: Seq<char>) -> Seq<char> {
    match text::found(why, " from "@, 0) {
        Some(at) => why.take(at),
        None => why,
    }
}

pub fn story_of(why: &str) -> (r: String)
    ensures
        r@ == story(why@),
{
    let cs = chars_of(why);
    let mark = chars_of(" from ");
    match position(cs.as_slice(), mark.as_slice(), 0) {
        Some(at) => {
            let head = copy_range(cs.as_slice(), 0, at);
            assert(head@ =~= cs@.take(at as int));
            text_of(head.as_slice())
        },
        None => own(why),
    }
}

pub open spec fn stories(notes: Seq<(Seq<char>, Seq<char>)>) -> Seq<Seq<char>> {
    Seq::new(notes.len(), |i: int| story(notes[i].1))
}

/// Whether some reasons are those of some notes, each once, in order.
pub open spec fn are_reasons(reasons: Seq<Seq<char>>, notes: Seq<(Seq<char>, Seq<char>)>) -> bool {
    &&& order::ascending(reasons)
    &&& forall|x: Seq<char>| #[trigger] reasons.contains(x) <==> stories(notes).contains(x)
}

/// The paths that one reason is given for.
pub open spec fn told_of(notes: Seq<(Seq<char>, Seq<char>)>, reason: Seq<char>) -> Seq<Seq<char>>
    decreases notes.len(),
{
    if notes.len() == 0 {
        seq![]
    } else {
        let before = told_of(notes.drop_last(), reason);
        if story(notes.last().1) == reason {
            before.push(notes.last().0)
        } else {
            before
        }
    }
}

fn reasons_in(notes: &Vec<(String, String)>) -> (r: Vec<String>)
    ensures
        are_reasons(text::texts(r@), apply::note_views(notes@)),
{
    let ghost all = apply::note_views(notes@);
    let mut out: Vec<String> = Vec::new();
    let mut i: usize = 0;
    assert(text::texts(out@) =~= Seq::<Seq<char>>::empty());
    while i < notes.len()
        invariant
            all == apply::note_views(notes@),
            i <= notes@.len(),
            are_reasons(text::texts(out@), all.take(i as int)),
        decreases notes@.len() - i,
    {
        let ghost before = stories(all.take(i as int));
        let key = story_of(notes[i].1.as_str());
        let ghost told = key@;
        insert_ascending(&mut out, key);
        proof {
            assert(all[i as int] == apply::note_view(notes@[i as int]));
            let now = stories(all.take(i + 1));
            assert(now =~= before.push(told));
            assert forall|x: Seq<char>| #[trigger] text::texts(out@).contains(x) <==> now.contains(x) by {
                pipeline::lemma_push_contains(before, told, x);
            }
        }
        i = i + 1;
    }
    assert(all.take(i as int) =~= all);
    out
}

fn paths_told(notes: &Vec<(String, String)>, reason: &str) -> (r: Vec<String>)
    ensures
        text::texts(r@) == told_of(apply::note_views(notes@), reason@),
{
    let ghost all = apply::note_views(notes@);
    let mut out: Vec<String> = Vec::new();
    let mut i: usize = 0;
    assert(all.take(0) =~= Seq::<(Seq<char>, Seq<char>)>::empty());
    assert(text::texts(out@) =~= Seq::<Seq<char>>::empty());
    while i < notes.len()
        invariant
            all == apply::note_views(notes@),
            i <= notes@.len(),
            text::texts(out@) == told_of(all.take(i as int), reason@),
        decreases notes@.len() - i,
    {
        assert(all.take(i + 1).drop_last() =~= all.take(i as int));
        assert(all.take(i + 1).last() == apply::note_view(notes@[i as int]));
        if same(story_of(notes[i].1.as_str()).as_str(), reason) {
            let ghost before = out@;
            let path = notes[i].0.clone();
            out.push(path);
            assert(text::texts(out@) =~= text::texts(before).push(path@));
        }
        i = i + 1;
    }
    assert(all.take(i as int) =~= all);
    out
}

/// The first few of some paths, a line each.
pub open spec fn path_lines(paths: Seq<Seq<char>>, n: int) -> Seq<char>
    decreases n,
{
    if n <= 0 {
        seq![]
    } else {
        path_lines(paths, n - 1) + "      "@ + paths[n - 1] + "\n"@
    }
}

pub open spec fn up_to(n: nat, limit: int) -> int {
    if n < limit {
        n as int
    } else {
        limit
    }
}

/// One reason: how many it is given for, and the first three of them.
pub open spec fn reason_lines(paths: Seq<Seq<char>>, reason: Seq<char>) -> Seq<char> {
    "  "@ + number::digits(paths.len()) + " — "@ + reason + "\n"@ + path_lines(paths, up_to(paths.len(), 3))
        + (if paths.len() > 3 {
        "      ... and "@ + number::digits((paths.len() - 3) as nat) + " more\n"@
    } else {
        seq![]
    })
}

pub open spec fn all_reason_lines(
    notes: Seq<(Seq<char>, Seq<char>)>,
    reasons: Seq<Seq<char>>,
    n: int,
) -> Seq<char>
    decreases n,
{
    if n <= 0 {
        seq![]
    } else {
        all_reason_lines(notes, reasons, n - 1) + reason_lines(
            told_of(notes, reasons[n - 1]),
            reasons[n - 1],
        )
    }
}

fn add_reason(out: &mut String, paths: &Vec<String>, reason: &str)
    ensures
        final(out)@ == old(out)@ + reason_lines(text::texts(paths@), reason@),
{
    let ghost start = out@;
    let ghost all = text::texts(paths@);
    out.append("  ");
    out.append(decimal_usize(paths.len()).as_str());
    out.append(" — ");
    out.append(reason);
    out.append("\n");
    let ghost head = out@;
    let limit: usize = if paths.len() < 3 {
        paths.len()
    } else {
        3
    };
    let mut i: usize = 0;
    assert(out@ =~= head + path_lines(all, 0));
    while i < limit
        invariant
            all == text::texts(paths@),
            limit <= paths@.len(),
            i <= limit,
            out@ == head + path_lines(all, i as int),
        decreases limit - i,
    {
        out.append("      ");
        out.append(paths[i].as_str());
        out.append("\n");
        assert(out@ =~= head + path_lines(all, i + 1));
        i = i + 1;
    }
    if paths.len() > 3 {
        out.append("      ... and ");
        out.append(decimal_usize(paths.len() - 3).as_str());
        out.append(" more\n");
    }
    assert(out@ =~= start + reason_lines(all, reason@));
}

/// What indexing did, or would do. Documents left alone are grouped by reason:
/// forty lines about forty short documents tell less than one.
pub open spec fn is_index_report(
    text: Seq<char>,
    indexed: nat,
    bookmarks: nat,
    notes: Seq<(Seq<char>, Seq<char>)>,
    dry_run: bool,
) -> bool {
    let head = "\n"@ + (if dry_run {
        "would index "@
    } else {
        "indexed "@
    }) + number::digits(indexed) + " documents with "@ + number::digits(bookmarks) + " bookmarks\n"@;
    if notes.len() == 0 {
        text == head
    } else {
        exists|reasons: Seq<Seq<char>>| #[trigger]
            are_reasons(reasons, notes) && text == head + "\nleft alone ("@ + number::digits(notes.len())
                + "):\n"@ + all_reason_lines(notes, reasons, reasons.len() as int)
    }
}

/// What indexing did, or would do.
pub fn report_index(run: &Indexing) -> (r: String)
    ensures
        is_index_report(
            r@,
            run@.indexed,
            run@.bookmarks,
            run@.skipped,
            run.options().dry_run,
        ),
{
    let (indexed, bookmarks, skipped) = run.tally();
    let ghost notes = run@.skipped;
    let mut out = own("\n");
    if run.is_dry() {
        out.append("would index ");
    } else {
        out.append("indexed ");
    }
    out.append(decimal_usize(indexed).as_str());
    out.append(" documents with ");
    out.append(decimal_wide(bookmarks).as_str());
    out.append(" bookmarks\n");
    assert(notes.len() == skipped@.len());
    if skipped.len() == 0 {
        return out;
    }
    out.append("\nleft alone (");
    out.append(decimal_usize(skipped.len()).as_str());
    out.append("):\n");
    let ghost start = out@;
    let reasons = reasons_in(skipped);
    let ghost all = text::texts(reasons@);
    let mut i: usize = 0;
    assert(out@ =~= start + all_reason_lines(notes, all, 0));
    while i < reasons.len()
        invariant
            notes == apply::note_views(skipped@),
            all == text::texts(reasons@),
            i <= reasons@.len(),
            out@ == start + all_reason_lines(notes, all, i as int),
        decreases reasons@.len() - i,
    {
        let reason = reasons[i].as_str();
        assert(all[i as int] == reason@);
        let paths = paths_told(skipped, reason);
        add_reason(&mut out, &paths, reason);
        assert(out@ =~= start + all_reason_lines(notes, all, i + 1));
        i = i + 1;
    }
    assert(are_reasons(all, notes));
    out
}

pub open spec fn skip_lines(
    notes: Seq<(Seq<char>, Seq<char>)>,
    reasons: Seq<Seq<char>>,
    n: int,
) -> Seq<char>
    decreases n,
{
    if n <= 0 {
        seq![]
    } else {
        skip_lines(notes, reasons, n - 1) + "    "@ + number::digits(told_of(notes, reasons[n - 1]).len())
            + " — "@ + reasons[n - 1] + "\n"@
    }
}

/// The reasons for which documents were left alone, each with a count.
pub open spec fn is_skip_summary(text: Seq<char>, notes: Seq<(Seq<char>, Seq<char>)>) -> bool {
    if notes.len() == 0 {
        text.len() == 0
    } else {
        exists|reasons: Seq<Seq<char>>| #[trigger]
            are_reasons(reasons, notes) && text == "  left alone ("@ + number::digits(notes.len())
                + "):\n"@ + skip_lines(notes, reasons, reasons.len() as int)
    }
}

/// Skip reasons grouped, so one story is told once.
pub fn summarise_skips(skipped: &Vec<(String, String)>) -> (r: String)
    ensures
        is_skip_summary(r@, apply::note_views(skipped@)),
{
    let ghost notes = apply::note_views(skipped@);
    assert(notes.len() == skipped@.len());
    if skipped.len() == 0 {
        return String::new();
    }
    let mut out = own("  left alone (");
    out.append(decimal_usize(skipped.len()).as_str());
    out.append("):\n");
    let ghost start = out@;
    let reasons = reasons_in(skipped);
    let ghost all = text::texts(reasons@);
    let mut i: usize = 0;
    assert(out@ =~= start + skip_lines(notes, all, 0));
    while i < reasons.len()
        invariant
            notes == apply::note_views(skipped@),
            all == text::texts(reasons@),
            i <= reasons@.len(),
            out@ == start + skip_lines(notes, all, i as int),
        decreases reasons@.len() - i,
    {
        let reason = reasons[i].as_str();
        assert(all[i as int] == reason@);
        let told = paths_told(skipped, reason);
        assert(text::texts(told@).len() == told@.len());
        out.append("    ");
        out.append(decimal_usize(told.len()).as_str());
        out.append(" — ");
        out.append(reason);
        out.append("\n");
        assert(out@ =~= start + skip_lines(notes, all, i + 1));
        i = i + 1;
    }
    assert(are_reasons(all, notes));
    out
}

// ---------------------------------------------------------------------------
// What an apply did
// ---------------------------------------------------------------------------

/// The first few of some notes, a line each.
pub open spec fn note_lines(notes: Seq<(Seq<char>, Seq<char>)>, n: int) -> Seq<char>
    decreases n,
{
    if n <= 0 {
        seq![]
    } else {
        note_lines(notes, n - 1) + "  "@ + notes[n - 1].0 + " — "@ + notes[n - 1].1 + "\n"@
    }
}

/// The first ten of some notes, and how many more there are.
pub open spec fn first_notes(notes: Seq<(Seq<char>, Seq<char>)>) -> Seq<char> {
    note_lines(notes, up_to(notes.len(), 10)) + (if notes.len() > 10 {
        "  ... and "@ + number::digits((notes.len() - 10) as nat) + " more\n"@
    } else {
        seq![]
    })
}

fn add_notes(out: &mut String, notes: &Vec<(String, String)>)
    ensures
        final(out)@ == old(out)@ + first_notes(apply::note_views(notes@)),
{
    let ghost start = out@;
    let ghost all = apply::note_views(notes@);
    let limit: usize = if notes.len() < 10 {
        notes.len()
    } else {
        10
    };
    let mut i: usize = 0;
    assert(out@ =~= start + note_lines(all, 0));
    while i < limit
        invariant
            all == apply::note_views(notes@),
            limit <= notes@.len(),
            i <= limit,
            out@ == start + note_lines(all, i as int),
        decreases limit - i,
    {
        assert(all[i as int] == apply::note_view(notes@[i as int]));
        out.append("  ");
        out.append(notes[i].0.as_str());
        out.append(" — ");
        out.append(notes[i].1.as_str());
        out.append("\n");
        assert(out@ =~= start + note_lines(all, i + 1));
        i = i + 1;
    }
    if notes.len() > 10 {
        out.append("  ... and ");
        out.append(decimal_usize(notes.len() - 10).as_str());
        out.append(" more\n");
    }
    assert(out@ =~= start + first_notes(all));
}

/// How many documents were filed, were there already, and failed, with the
/// failures.
pub open spec fn filing_report(outcome: Report) -> Seq<char> {
    "\nfiled "@ + number::digits(outcome.filed as nat) + ", already present "@ + number::digits(
        outcome.skipped as nat,
    ) + ", failed "@ + number::digits(outcome.failed@.len()) + "\n"@ + first_notes(
        apply::note_views(outcome.failed@),
    )
}

/// How many documents were stamped, and which could not be.
pub open spec fn stamp_report(outcome: Report) -> Seq<char> {
    "stamped "@ + number::digits(outcome.stamped as nat) + " PDFs, "@ + number::digits(
        outcome.stamp_failed@.len(),
    ) + " could not be stamped\n"@ + first_notes(apply::note_views(outcome.stamp_failed@))
}

pub open spec fn undo_hint(manifest: Option<Seq<char>>) -> Seq<char> {
    match manifest {
        Some(path) => "\nundo with: sorting-hat undo "@ + path + "\n"@,
        None => seq![],
    }
}

/// What an apply actually did.
pub open spec fn is_apply_report(
    text: Seq<char>,
    outcome: Report,
    metadata: bool,
    bookmarks: bool,
) -> bool {
    exists|skips: Seq<char>| #[trigger]
        is_skip_summary(skips, apply::note_views(outcome.index_skipped@)) && text == filing_report(
            outcome,
        ) + (if metadata {
            stamp_report(outcome)
        } else {
            seq![]
        }) + (if bookmarks {
            "indexed "@ + number::digits(outcome.indexed as nat) + " documents with "@ + number::digits(
                outcome.bookmarks as nat,
            ) + " bookmarks\n"@ + skips
        } else {
            seq![]
        }) + undo_hint(text::opt_text(outcome.manifest))
}

/// Say what an apply actually did.
pub fn report_apply(outcome: &Report, metadata: bool, bookmarks: bool) -> (r: String)
    ensures
        is_apply_report(r@, *outcome, metadata, bookmarks),
{
    let mut out = own("\nfiled ");
    out.append(decimal_usize(outcome.filed).as_str());
    out.append(", already present ");
    out.append(decimal_usize(outcome.skipped).as_str());
    out.append(", failed ");
    out.append(decimal_usize(outcome.failed.len()).as_str());
    out.append("\n");
    add_notes(&mut out, &outcome.failed);
    assert(out@ =~= filing_report(*outcome));
    let ghost first = out@;
    if metadata {
        out.append("stamped ");
        out.append(decimal_usize(outcome.stamped).as_str());
        out.append(" PDFs, ");
        out.append(decimal_usize(outcome.stamp_failed.len()).as_str());
        out.append(" could not be stamped\n");
        add_notes(&mut out, &outcome.stamp_failed);
    }
    let ghost second = first + (if metadata {
        stamp_report(*outcome)
    } else {
        seq![]
    });
    assert(out@ =~= second);
    let skips = summarise_skips(&outcome.index_skipped);
    if bookmarks {
        out.append("indexed ");
        out.append(decimal_usize(outcome.indexed).as_str());
        out.append(" documents with ");
        out.append(decimal_usize(outcome.bookmarks).as_str());
        out.append(" bookmarks\n");
        out.append(skips.as_str());
    }
    let ghost third = second + (if bookmarks {
        "indexed "@ + number::digits(outcome.indexed as nat) + " documents with "@ + number::digits(
            outcome.bookmarks as nat,
        ) + " bookmarks\n"@ + skips@
    } else {
        seq![]
    });
    assert(out@ =~= third);
    if let Some(path) = &outcome.manifest {
        out.append("\nundo with: sorting-hat undo ");
        out.append(path.as_str());
        out.append("\n");
    }
    assert(out@ =~= third + undo_hint(text::opt_text(outcome.manifest)));
    assert(is_skip_summary(skips@, apply::note_views(outcome.index_skipped@)));
    out
}

// ---------------------------------------------------------------------------
// The doctor
// ---------------------------------------------------------------------------

pub open spec fn blanks(n: nat) -> Seq<char> {
    Seq::new(n, |i: int| ' ')
}

/// A text filled up with blanks to a width.
pub open spec fn padded(s: Seq<char>, width: nat) -> Seq<char> {
    if s.len() < width {
        s + blanks((width - s.len()) as nat)
    } else {
        s
    }
}

/// A finding: whether something is there, its name, and what that means.
pub open spec fn finding(label: Seq<char>, ok: bool, detail: Seq<char>) -> Seq<char> {
    "  ["@ + (if ok {
        "ok"@
    } else {
        "--"@
    }) + "] "@ + padded(label, 26) + " "@ + detail + "\n"@
}

fn add_finding(out: &mut String, label: &str, ok: bool, detail: &str)
    ensures
        final(out)@ == old(out)@ + finding(label@, ok, detail@),
{
    let ghost start = out@;
    out.append("  [");
    if ok {
        out.append("ok");
    } else {
        out.append("--");
    }
    out.append("] ");
    let mut name = chars_of(label);
    while name.len() < 26
        invariant
            name@ == (if label@.len() < name@.len() {
                label@ + blanks((name@.len() - label@.len()) as nat)
            } else {
                label@
            }),
            label@.len() <= name@.len(),
            name@.len() <= 26 || name@.len() == label@.len(),
        decreases 26 - name@.len(),
    {
        name.push(' ');
        assert(name@ =~= label@ + blanks((name@.len() - label@.len()) as nat));
    }
    assert(name@ =~= padded(label@, 26));
    out.append(text_of(name.as_slice()).as_str());
    out.append(" ");
    out.append(detail);
    out.append("\n");
    assert(out@ =~= start + finding(label@, ok, detail@));
}

/// What a missing tool costs.
pub open spec fn tool_cost(tool: Seq<char>) -> Seq<char> {
    if tool == "pdftotext"@ || tool == "pdfinfo"@ {
        "needed to read PDFs at all"@
    } else if tool == "pdftoppm"@ {
        "without it, image-only PDFs cannot be looked at"@
    } else {
        "without it, no chapter indexes can be built"@
    }
}

fn cost_of(tool: &str) -> (r: &'static str)
    ensures
        r@ == tool_cost(tool@),
{
    if same(tool, "pdftotext") || same(tool, "pdfinfo") {
        "needed to read PDFs at all"
    } else if same(tool, "pdftoppm") {
        "without it, image-only PDFs cannot be looked at"
    } else {
        "without it, no chapter indexes can be built"
    }
}

/// A size in gigabytes with one decimal.
pub open spec fn gigabytes(bytes: u64) -> Seq<char> {
    float::decimal_text(Format::Double, float::gigabytes(bytes), 10) + " GB"@
}

/// What is said of a model file.
pub open spec fn model_detail(size: Option<u64>, path: Seq<char>) -> Seq<char> {
    match size {
        Some(n) => gigabytes(n) + "  "@ + path,
        None => "missing: "@ + path,
    }
}

fn model_text(size: Option<u64>, path: &str) -> (r: String)
    ensures
        r@ == model_detail(size, path@),
{
    match size {
        Some(n) => {
            let size: u64 = count_gigabytes(n);
            assert(size as nat / 0x10_0000_0000_0000 <= 1087);
            let mut out = print_decimal(Format::Double, size, 10);
            out.append(" GB");
            out.append("  ");
            out.append(path);
            out
        },
        None => {
            let mut out = own("missing: ");
            out.append(path);
            out
        },
    }
}

/// What the machine was found to have.
pub struct Findings {
    pub pdftotext: bool,
    pub pdfinfo: bool,
    pub pdftoppm: bool,
    pub pdftohtml: bool,
    pub llama_built: bool,
    /// The sizes of the model files that are there.
    pub model: Option<u64>,
    pub vision: Option<u64>,
    pub projector: Option<u64>,
    pub gpu: Option<String>,
    /// How many PDFs the source holds, or why they could not be counted.
    pub source_pdfs: Result<usize, String>,
    pub library_pdfs: usize,
    pub plan_exists: bool,
    /// How many documents have been read already.
    pub cached: usize,
}

pub open spec fn tool_finding(tool: Seq<char>, ok: bool) -> Seq<char> {
    finding(
        tool,
        ok,
        if ok {
            ""@
        } else {
            tool_cost(tool)
        },
    )
}

pub open spec fn tools_found(f: Findings) -> Seq<char> {
    "\nExternal tools\n"@ + tool_finding("pdftotext"@, f.pdftotext) + tool_finding(
        "pdfinfo"@,
        f.pdfinfo,
    ) + tool_finding("pdftoppm"@, f.pdftoppm) + tool_finding("pdftohtml"@, f.pdftohtml)
}

pub open spec fn models_found(f: Findings, cfg: Config) -> Seq<char> {
    "\nModels\n"@ + finding(
        "llama backend"@,
        f.llama_built,
        if f.llama_built {
            ""@
        } else {
            "rebuild with --features cuda"@
        },
    ) + finding("text model"@, f.model is Some, model_detail(f.model, cfg.model.path@)) + finding(
        "vision model"@,
        f.vision is Some,
        model_detail(f.vision, cfg.vision.path@),
    ) + finding(
        "vision projector"@,
        f.projector is Some,
        model_detail(f.projector, cfg.vision.mmproj@),
    )
}

pub open spec fn gpu_found(f: Findings) -> Seq<char> {
    "\nGPU\n"@ + finding(
        "nvidia-smi"@,
        f.gpu is Some,
        match f.gpu {
            Some(name) => name@,
            None => "no NVIDIA GPU visible; the model will run on CPU"@,
        },
    )
}

pub open spec fn pdfs_detail(n: nat, path: Seq<char>) -> Seq<char> {
    number::digits(n) + " PDFs in "@ + path
}

pub open spec fn source_finding(f: Findings, cfg: Config) -> Seq<char> {
    match f.source_pdfs {
        Ok(n) => finding("source"@, n > 0, pdfs_detail(n as nat, cfg.source@)),
        Err(why) => finding("source"@, false, cfg.source@ + ": "@ + why@),
    }
}

pub open spec fn paths_found(f: Findings, cfg: Config, plan_path: Seq<char>) -> Seq<char> {
    "\nPaths\n"@ + source_finding(f, cfg) + finding(
        "library"@,
        true,
        pdfs_detail(f.library_pdfs as nat, cfg.library@),
    ) + finding(
        "plan"@,
        f.plan_exists,
        if f.plan_exists {
            plan_path
        } else {
            "none yet; run `sorting-hat plan`"@
        },
    ) + finding("digest cache"@, f.cached > 0, number::digits(f.cached as nat) + " documents already read"@)
        + "\n"@
}

fn add_tool(out: &mut String, tool: &str, ok: bool)
    ensures
        final(out)@ == old(out)@ + tool_finding(tool@, ok),
{
    if ok {
        add_finding(out, tool, true, "");
    } else {
        add_finding(out, tool, false, cost_of(tool));
    }
}

fn tools_text(f: &Findings) -> (r: String)
    ensures
        r@ == tools_found(*f),
{
    let mut out = own("\nExternal tools\n");
    add_tool(&mut out, "pdftotext", f.pdftotext);
    add_tool(&mut out, "pdfinfo", f.pdfinfo);
    add_tool(&mut out, "pdftoppm", f.pdftoppm);
    add_tool(&mut out, "pdftohtml", f.pdftohtml);
    out
}

fn add_model(out: &mut String, label: &str, size: Option<u64>, path: &str)
    ensures
        final(out)@ == old(out)@ + finding(label@, size is Some, model_detail(size, path@)),
{
    let detail = model_text(size, path);
    add_finding(out, label, size.is_some(), detail.as_str());
}

fn models_text(f: &Findings, cfg: &Config) -> (r: String)
    ensures
        r@ == models_found(*f, *cfg),
{
    let mut out = own("\nModels\n");
    if f.llama_built {
        add_finding(&mut out, "llama backend", true, "");
    } else {
        add_finding(&mut out, "llama backend", false, "rebuild with --features cuda");
    }
    add_model(&mut out, "text model", f.model, cfg.model.path.as_str());
    add_model(&mut out, "vision model", f.vision, cfg.vision.path.as_str());
    add_model(&mut out, "vision projector", f.projector, cfg.vision.mmproj.as_str());
    out
}

fn gpu_text(f: &Findings) -> (r: String)
    ensures
        r@ == gpu_found(*f),
{
    let mut out = own("\nGPU\n");
    match &f.gpu {
        Some(name) => add_finding(&mut out, "nvidia-smi", true, name.as_str()),
        None => add_finding(
            &mut out,
            "nvidia-smi",
            false,
            "no NVIDIA GPU visible; the model will run on CPU",
        ),
    }
    out
}

fn pdfs_in(n: usize, path: &str) -> (r: String)
    ensures
        r@ == pdfs_detail(n as nat, path@),
{
    let mut out = decimal_usize(n);
    out.append(" PDFs in ");
    out.append(path);
    out
}

fn add_source(out: &mut String, f: &Findings, cfg: &Config)
    ensures
        final(out)@ == old(out)@ + source_finding(*f, *cfg),
{
    match &f.source_pdfs {
        Ok(n) => {
            let detail = pdfs_in(*n, cfg.source.as_str());
            add_finding(out, "source", *n > 0, detail.as_str());
        },
        Err(why) => {
            let mut detail = cfg.source.clone();
            detail.append(": ");
            detail.append(why.as_str());
            add_finding(out, "source", false, detail.as_str());
        },
    }
}

fn paths_text(f: &Findings, cfg: &Config) -> (r: String)
    ensures
        r@ == paths_found(*f, *cfg, paths::join(cfg.work_dir@, "plan.json"@)),
{
    let mut out = own("\nPaths\n");
    add_source(&mut out, f, cfg);
    let library = pdfs_in(f.library_pdfs, cfg.library.as_str());
    add_finding(&mut out, "library", true, library.as_str());
    if f.plan_exists {
        let path = cfg.plan_path();
        add_finding(&mut out, "plan", true, path.as_str());
    } else {
        add_finding(&mut out, "plan", false, "none yet; run `sorting-hat plan`");
    }
    let mut read = decimal_usize(f.cached);
    read.append(" documents already read");
    add_finding(&mut out, "digest cache", f.cached > 0, read.as_str());
    out.append("\n");
    out
}

/// Say what is present, what is missing, and what missing costs.
pub fn doctor(f: &Findings, cfg: &Config) -> (r: String)
    ensures
        r@ == tools_found(*f) + models_found(*f, *cfg) + gpu_found(*f) + paths_found(
            *f,
            *cfg,
            paths::join(cfg.work_dir@, "plan.json"@),
        ),
{
    let mut out = tools_text(f);
    out.append(models_text(f, cfg).as_str());
    out.append(gpu_text(f).as_str());
    out.append(paths_text(f, cfg).as_str());
    out
}

// ---------------------------------------------------------------------------
// Laws
// ---------------------------------------------------------------------------

/// What tells one case from another stands behind " from " and is no part of the story,
/// so that two reasons that differ in it alone are one.
pub proof fn stories_leave_particulars_out(why: Seq<char>, one: Seq<char>, other: Seq<char>)
    requires
        forall|i: int|
            0 <= i < why.len() ==> !text::occurs_at(why + " from "@ + one, " from "@, i),
        forall|i: int|
            0 <= i < why.len() ==> !text::occurs_at(why + " from "@ + other, " from "@, i),
    ensures
        story(why + " from "@ + one) == why,
        story(why + " from "@ + other) == why,
{
    lemma_story(why, one);
    lemma_story(why, other);
}

proof fn lemma_story(why: Seq<char>, rest: Seq<char>)
    requires
        forall|i: int|
            0 <= i < why.len() ==> !text::occurs_at(why + " from "@ + rest, " from "@, i),
    ensures
        story(why + " from "@ + rest) == why,
{
    let whole = why + " from "@ + rest;
    let n = why.len() as int;
    assert(whole.subrange(n, n + " from "@.len()) =~= " from "@);
    assert(text::occurs_at(whole, " from "@, n));
    assert(text::first_at(whole, " from "@, 0, n));
    text::lemma_found_some(whole, " from "@, 0, n);
    assert(whole.take(n) =~= why);
}

/// The notes that a reason is given for, by number.
pub open spec fn given_for(notes: Seq<(Seq<char>, Seq<char>)>, reason: Seq<char>) -> Set<int> {
    Set::new(|i: int| 0 <= i < notes.len() && story(notes[i].1) == reason)
}

/// Each document that was left alone is counted under its own reason: a reason is told
/// of as many documents as there are notes that give it.
pub proof fn every_note_is_told(notes: Seq<(Seq<char>, Seq<char>)>, reason: Seq<char>, i: int)
    requires
        0 <= i < notes.len(),
    ensures
        given_for(notes, reason).finite(),
        told_of(notes, reason).len() == given_for(notes, reason).len(),
        story(notes[i].1) == reason ==> told_of(notes, reason).contains(notes[i].0),
{
    lemma_told_count(notes, reason);
    lemma_told_path(notes, reason, i);
}

proof fn lemma_told_path(notes: Seq<(Seq<char>, Seq<char>)>, reason: Seq<char>, i: int)
    requires
        0 <= i < notes.len(),
    ensures
        story(notes[i].1) == reason ==> told_of(notes, reason).contains(notes[i].0),
    decreases notes.len(),
{
    let front = notes.drop_last();
    let before = told_of(front, reason);
    let all = told_of(notes, reason);
    if i < front.len() {
        lemma_told_path(front, reason, i);
        assert(front[i] == notes[i]);
        if story(notes[i].1) == reason {
            let k = choose|k: int| 0 <= k < before.len() && before[k] == notes[i].0;
            assert(all[k] == notes[i].0);
        }
    } else if story(notes[i].1) == reason {
        assert(all[before.len() as int] == notes[i].0);
    }
}

proof fn lemma_told_count(notes: Seq<(Seq<char>, Seq<char>)>, reason: Seq<char>)
    ensures
        given_for(notes, reason).finite(),
        told_of(notes, reason).len() == given_for(notes, reason).len(),
    decreases notes.len(),
{
    if notes.len() == 0 {
        assert(given_for(notes, reason) =~= Set::empty());
    } else {
        let front = notes.drop_last();
        let n = notes.len() - 1;
        lemma_told_count(front, reason);
        assert forall|j: int| 0 <= j < n implies #[trigger] front[j] == notes[j] by {}
        if story(notes.last().1) == reason {
            assert(given_for(notes, reason) =~= given_for(front, reason).insert(n));
        } else {
            assert(given_for(notes, reason) =~= given_for(front, reason));
        }
    }
}

} // verus!
