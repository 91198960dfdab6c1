use lopdf::{Dictionary, Document, Object};
use sorting_hat::apply::{
    check_apply, instead_of, latest_manifest, next_step, operation_for, record_file, record_file_at, refusal,
    rewrite, rewrite_filed, undo_step, Applying, Enriched, Enrichment, Event, Operation, Step, Task, UndoStep, UndoTask, Undoing,
    ENCRYPTED, NO_METADATA_RECORDED, NO_RECORD, SOURCE_MISSING, TOO_MANY_OBJECTS,
};
use sorting_hat::outline::{has_outline, Entry};
use sorting_hat::types::{Assignment, Digest, LinkMode, Plan, Taxonomy, Timestamp, UndoAction, UndoManifest};
use std::collections::BTreeMap;

fn digest(confidence: f32) -> Digest {
    Digest {
        hash: "h".to_string(),
        path: "/in/a.pdf".to_string(),
        title: "Named".to_string(),
        game_system: "D&D 5e".to_string(),
        doc_type: "adventure".to_string(),
        setting: "unknown".to_string(),
        level_range: "unknown".to_string(),
        publisher: "Somebody".to_string(),
        topics: vec![],
        summary: "A summary.".to_string(),
        confidence: confidence.to_bits(),
        source: "test".to_string(),
    }
}

fn assignment(source: &str, dest: &str, digest: Option<Digest>) -> Assignment {
    Assignment {
        hash: "h".to_string(),
        source: source.to_string(),
        dest: dest.to_string(),
        leaf: "A".to_string(),
        title: "Named".to_string(),
        confidence: 0.9f32.to_bits(),
        reason: String::new(),
        digest,
    }
}

fn plan(mode: LinkMode, assignments: Vec<Assignment>) -> Plan {
    Plan {
        created: Timestamp { seconds: 0, nanos: 0 },
        source_root: "/in".to_string(),
        library_root: "/out".to_string(),
        mode,
        taxonomy: Taxonomy { leaves: vec![], notes: vec![] },
        assignments,
        unfiled: vec![],
        duplicates: vec![],
    }
}

fn entry(level: usize, title: &str, page: usize) -> Entry {
    Entry { level, title: title.to_string(), page }
}

fn document(pages: usize) -> Document {
    let mut doc = Document::new();
    let pages_id = doc.new_object_id();
    let mut kids = Vec::new();
    for _ in 0..pages {
        let mut page = Dictionary::new();
        page.set("Type", Object::Name(b"Page".to_vec()));
        page.set("Parent", Object::Reference(pages_id));
        kids.push(Object::Reference(doc.add_object(Object::Dictionary(page))));
    }
    let mut list = Dictionary::new();
    list.set("Type", Object::Name(b"Pages".to_vec()));
    list.set("Count", Object::Integer(pages as i64));
    list.set("Kids", Object::Array(kids));
    doc.objects.insert(pages_id, Object::Dictionary(list));
    let mut catalog = Dictionary::new();
    catalog.set("Type", Object::Name(b"Catalog".to_vec()));
    catalog.set("Pages", Object::Reference(pages_id));
    let root = doc.add_object(Object::Dictionary(catalog));
    doc.trailer.set("Root", Object::Reference(root));
    doc
}

#[test]
fn refused_combinations_cost_nothing() {
    let with = || vec![assignment("/in/a.pdf", "A/a.pdf", Some(digest(0.9)))];
    assert!(check_apply(&plan(LinkMode::Hardlink, with()), false).is_ok());
    assert!(check_apply(&plan(LinkMode::Hardlink, with()), true).is_err());
    assert!(check_apply(&plan(LinkMode::Symlink, with()), true).is_err());
    assert!(check_apply(&plan(LinkMode::Copy, with()), true).is_ok());
    assert!(check_apply(&plan(LinkMode::Move, with()), true).is_ok());
    let without = vec![assignment("/in/a.pdf", "A/a.pdf", None)];
    assert_eq!(check_apply(&plan(LinkMode::Copy, without), true).unwrap_err(), NO_METADATA_RECORDED);
    assert!(NO_METADATA_RECORDED.ends_with("re-run `sorting-hat plan` to produce one that can be stamped"));
}

#[test]
fn rerunning_a_plan_clobbers_nothing() {
    assert!(next_step(false, false) == Step::Missing);
    assert!(next_step(false, true) == Step::Missing);
    assert!(next_step(true, true) == Step::AlreadyThere);
    assert!(next_step(true, false) == Step::Create);
}

#[test]
fn links_that_cross_file_systems_become_copies() {
    assert!(operation_for(LinkMode::Hardlink) == Operation::HardLink);
    assert!(operation_for(LinkMode::Symlink) == Operation::Symlink);
    assert!(operation_for(LinkMode::Copy) == Operation::Copy);
    assert!(operation_for(LinkMode::Move) == Operation::Rename);
    assert!(instead_of(Operation::HardLink, Some(18)) == Some(Operation::Copy));
    assert!(instead_of(Operation::Rename, Some(18)) == Some(Operation::CopyAndRemove));
    assert!(instead_of(Operation::Copy, Some(18)).is_none());
    assert!(instead_of(Operation::HardLink, Some(13)).is_none());
    assert!(instead_of(Operation::Rename, None).is_none());
}

#[test]
fn a_document_gets_every_change_at_once() {
    let mut doc = document(2);
    let entries = vec![entry(0, "One", 1), entry(1, "Two", 2)];
    let filed = assignment("/in/a.pdf", "A/a.pdf", Some(digest(0.9)));
    let done = rewrite_filed(&mut doc, &filed, true, Some(&entries)).ok().unwrap();
    assert!(done.stamped && done.changed);
    assert_eq!(done.bookmarks, 2);
    assert!(done.outline_skipped.is_none());
    assert!(has_outline(&doc));
    let info = doc.trailer.get(b"Info").unwrap().as_reference().unwrap();
    assert_eq!(doc.get_object(info).unwrap().as_dict().unwrap().get(b"Title").unwrap().as_str().unwrap(), b"Named");

    let again = rewrite_filed(&mut doc, &filed, false, Some(&entries)).ok().unwrap();
    assert!(!again.stamped && !again.changed);
    assert_eq!(again.outline_skipped.as_deref(), Some("already has a bookmark tree"));
}

#[test]
fn a_sure_digest_overwrites_and_a_doubtful_one_does_not() {
    let titled = |confidence| {
        let mut doc = document(1);
        let mut info = Dictionary::new();
        info.set("Title", Object::string_literal("Theirs"));
        let id = doc.add_object(Object::Dictionary(info));
        doc.trailer.set("Info", Object::Reference(id));
        rewrite(&mut doc, Some(&digest(confidence)), None).ok().unwrap();
        let id = doc.trailer.get(b"Info").unwrap().as_reference().unwrap();
        doc.get_object(id).unwrap().as_dict().unwrap().get(b"Title").unwrap().as_str().unwrap().to_vec()
    };
    assert_eq!(titled(0.6), b"Named");
    assert_eq!(titled(0.599), b"Theirs");
}

#[test]
fn documents_that_cannot_be_rewritten_are_left_alone() {
    let filed = assignment("/in/a.pdf", "A/a.pdf", Some(digest(0.9)));
    let mut locked = document(1);
    let id = locked.add_object(Object::Dictionary(Dictionary::new()));
    locked.trailer.set("Encrypt", Object::Reference(id));
    assert_eq!(rewrite_filed(&mut locked, &filed, true, None).err().unwrap(), ENCRYPTED);
    assert!(!locked.trailer.has(b"Info"));
    let mut full = document(1);
    full.max_id = u32::MAX;
    assert_eq!(rewrite_filed(&mut full, &filed, true, None).err().unwrap(), TOO_MANY_OBJECTS);
    let none = rewrite(&mut document(1), None, None).ok().unwrap();
    assert!(!none.stamped && !none.changed && none.bookmarks == 0);
    let skipped = rewrite(&mut document(1), None, Some(&vec![])).ok().unwrap();
    assert_eq!(skipped.outline_skipped.as_deref(), Some("no headings stand out from the body text"));
}

fn inspected(source_exists: bool, dest_exists: bool) -> Event {
    Event::Inspected { source_exists, dest_exists }
}

fn failed(os_error: Option<i32>, why: &str) -> Event {
    Event::Failed { os_error, why: why.to_string(), left: false }
}

fn left_behind(why: &str) -> Event {
    Event::Failed { os_error: None, why: why.to_string(), left: true }
}

#[test]
fn a_run_records_files_before_they_are_created() {
    let names = ["a", "b", "c", "d", "e", "f"];
    let plan = plan(
        LinkMode::Move,
        names.iter().map(|n| assignment(&format!("/in/{}.pdf", n), &format!("A/{}.pdf", n), None)).collect(),
    );
    let none = Enrichment::default();
    let mut run = Applying::new(&plan, Timestamp { seconds: 5, nanos: 6 });
    assert_eq!(run.task(), Task::Inspect);
    run.take(&plan, true, &none, inspected(true, false));
    assert_eq!(run.task(), Task::MakeParent);
    assert!(run.record().actions.is_empty());
    run.take(&plan, true, &none, Event::ParentMade);
    assert_eq!(run.task(), Task::Place(Operation::Rename));
    assert_eq!(run.record().actions.len(), 1, "on record before it is placed");
    assert_eq!(run.record().actions[0].created, "/out/A/a.pdf");
    assert_eq!(run.record().actions[0].original, "/in/a.pdf");
    assert_eq!(run.record().library_root, "/out");
    assert_eq!(run.record().created.seconds, 5);
    run.take(&plan, true, &none, failed(Some(18), "crosses"));
    assert_eq!(run.task(), Task::Place(Operation::CopyAndRemove));
    run.take(&plan, true, &none, Event::Placed);
    assert_eq!(run.task(), Task::Rewrite);
    run.take(
        &plan,
        true,
        &none,
        Event::Rewritten(Ok(Enriched { stamped: true, bookmarks: 3, outline_skipped: None, changed: true })),
    );
    assert_eq!(run.at(), 1);
    run.take(&plan, true, &none, inspected(true, false));
    run.take(&plan, true, &none, Event::ParentMade);
    run.take(&plan, true, &none, failed(Some(13), "moving: denied"));
    assert_eq!(run.record().actions.len(), 1, "what was not created is off the record");
    run.take(&plan, true, &none, inspected(false, true));
    run.take(&plan, true, &none, inspected(true, true));
    run.take(&plan, true, &none, inspected(true, false));
    run.take(&plan, true, &none, failed(None, "creating /out/A"));
    run.take(&plan, true, &none, Event::Placed);
    assert_eq!(run.task(), Task::Inspect, "what was not asked changes nothing");
    run.take(&plan, true, &none, inspected(true, false));
    run.take(&plan, true, &none, Event::ParentMade);
    run.take(&plan, true, &none, Event::Placed);
    run.take(&plan, true, &none, Event::Rewritten(Err("broken".to_string())));
    assert_eq!(run.task(), Task::Finished);
    let report = run.finish(Some("/work/undo-x.json".to_string()));
    assert_eq!((report.filed, report.skipped, report.stamped), (2, 1, 1));
    assert_eq!(report.filed + report.skipped + report.failed.len(), names.len(), "every document is settled");
    assert_eq!((report.indexed, report.bookmarks), (1, 3));
    assert_eq!(report.failed, vec![
        ("/in/b.pdf".to_string(), "moving: denied".to_string()),
        ("/in/c.pdf".to_string(), SOURCE_MISSING.to_string()),
        ("/in/e.pdf".to_string(), "creating /out/A".to_string()),
    ]);
    assert_eq!(report.stamp_failed, vec![("/out/A/f.pdf".to_string(), "broken".to_string())]);
    assert_eq!(report.manifest.as_deref(), Some("/work/undo-x.json"));
}

#[test]
fn only_documents_with_something_to_write_are_rewritten() {
    let plan = plan(
        LinkMode::Copy,
        vec![assignment("/in/a.pdf", "A/a.pdf", None), assignment("/in/b.pdf", "A/b.pdf", None)],
    );
    let mut enrich = Enrichment::default();
    enrich.outlines.insert("/in/b.pdf".to_string(), vec![entry(0, "One", 1)]);
    let mut run = Applying::new(&plan, Timestamp { seconds: 0, nanos: 0 });
    for _ in 0..2 {
        run.take(&plan, false, &enrich, inspected(true, false));
        run.take(&plan, false, &enrich, Event::ParentMade);
        run.take(&plan, false, &enrich, Event::Placed);
    }
    assert_eq!((run.at(), run.task()), (1, Task::Rewrite));
    run.take(
        &plan,
        false,
        &enrich,
        Event::Rewritten(Ok(Enriched {
            stamped: false,
            bookmarks: 0,
            outline_skipped: Some("why".to_string()),
            changed: false,
        })),
    );
    let report = run.finish(None);
    assert_eq!((report.filed, report.stamped, report.indexed), (2, 0, 0));
    assert_eq!(report.index_skipped, vec![("/out/A/b.pdf".to_string(), "why".to_string())]);
}

#[test]
fn a_run_that_filed_nothing_leaves_no_record() {
    let run = Applying::new(&plan(LinkMode::Copy, vec![]), Timestamp { seconds: 0, nanos: 0 });
    assert_eq!(run.task(), Task::Finished);
    let report = run.finish(Some("/work/undo-x.json".to_string()));
    assert_eq!(report.filed, 0);
    assert_eq!(report.manifest, None);
}

#[test]
fn records_are_named_after_the_moment() {
    assert_eq!(record_file("/work", "20231114T221320Z"), "/work/undo-20231114T221320Z.json");
    assert_eq!(
        record_file_at("/work", Timestamp { seconds: 1_700_000_000, nanos: 0 }).as_deref(),
        Some("/work/undo-20231114T221320Z.json")
    );
    assert_eq!(record_file_at("/work", Timestamp { seconds: i64::MAX, nanos: 0 }), None);
}

#[test]
fn the_latest_record_is_reversed() {
    let files: Vec<String> = [
        "/w/undo-20230101T000000Z.json",
        "/w/undo-20240101T000000Z.json",
        "/w/plan.json",
        "/w/undo-20250101T000000Z.txt",
        "/w/undo-20231231T235959Z.json",
    ]
    .iter()
    .map(|s| s.to_string())
    .collect();
    assert_eq!(latest_manifest(&files).unwrap(), "/w/undo-20240101T000000Z.json");
    assert_eq!(latest_manifest(&vec!["/w/plan.json".to_string()]).unwrap_err(), NO_RECORD);
}

#[test]
fn undo_steps_never_overwrite() {
    assert!(undo_step(LinkMode::Move, false, false) == UndoStep::Skip);
    assert!(undo_step(LinkMode::Move, true, true) == UndoStep::Refuse);
    assert!(undo_step(LinkMode::Move, true, false) == UndoStep::PutBack);
    assert!(undo_step(LinkMode::Copy, true, true) == UndoStep::Remove);
    assert!(undo_step(LinkMode::Hardlink, false, true) == UndoStep::Skip);
}

#[test]
fn a_reversal_says_what_went_wrong() {
    let action = |n: &str| UndoAction { created: format!("/out/{}.pdf", n), original: format!("/in/{}.pdf", n) };
    assert_eq!(refusal(&action("a")), "/in/a.pdf already exists; leaving /out/a.pdf in place");
    let record = UndoManifest {
        created: Timestamp { seconds: 0, nanos: 0 },
        mode: LinkMode::Move,
        library_root: "/out".to_string(),
        actions: vec![action("a"), action("b"), action("c"), action("d")],
    };
    let mut undo = Undoing::new(&record);
    undo.performed(&record, Ok(()));
    assert_eq!(undo.in_hand(), Some(3), "what was not asked changes nothing");
    undo.inspected(&record, true, true);
    undo.inspected(&record, false, false);
    undo.inspected(&record, true, false);
    assert_eq!(undo.task(), UndoTask::PutBack);
    undo.performed(&record, Ok(()));
    undo.inspected(&record, true, false);
    undo.performed(&record, Err("denied".to_string()));
    assert_eq!(undo.task(), UndoTask::Finished);
    let (reversed, problems) = undo.finish();
    assert_eq!(reversed, 1);
    assert_eq!(
        problems,
        vec![
            "/out/d.pdf: /in/d.pdf already exists; leaving /out/d.pdf in place".to_string(),
            "/out/a.pdf: denied".to_string(),
        ]
    );
}

/// Carry out and reverse a run on files that are only imagined.
fn round_trip(mode: LinkMode) -> (BTreeMap<String, u32>, BTreeMap<String, u32>) {
    let mut files: BTreeMap<String, u32> = BTreeMap::new();
    for (i, name) in ["/in/a.pdf", "/in/b.pdf", "/in/c.pdf"].iter().enumerate() {
        files.insert(name.to_string(), i as u32);
    }
    let start = files.clone();
    let plan = plan(
        mode,
        vec![
            assignment("/in/a.pdf", "A/x.pdf", None),
            assignment("/in/b.pdf", "B/y.pdf", None),
            assignment("/in/gone.pdf", "B/z.pdf", None),
        ],
    );
    let none = Enrichment::default();
    let mut run = Applying::new(&plan, Timestamp { seconds: 0, nanos: 0 });
    while run.task() != Task::Finished {
        let a = &plan.assignments[run.at()];
        let dest = format!("{}/{}", plan.library_root, a.dest);
        let event = match run.task() {
            Task::Inspect => inspected(files.contains_key(&a.source), files.contains_key(&dest)),
            Task::MakeParent => Event::ParentMade,
            Task::Place(op) => {
                let content = files[&a.source];
                if op == Operation::Rename {
                    files.remove(&a.source);
                }
                files.insert(dest, content);
                Event::Placed
            }
            Task::Rewrite | Task::Finished => unreachable!(),
        };
        run.take(&plan, false, &none, event);
    }
    assert_ne!(files, start);
    let mut undo = Undoing::new(run.record());
    while let Some(at) = undo.in_hand() {
        let action = &run.record().actions[at];
        match undo.task() {
            UndoTask::Inspect => {
                let there = files.contains_key(&action.created);
                undo.inspected(run.record(), there, files.contains_key(&action.original));
            }
            UndoTask::PutBack => {
                let content = files.remove(&action.created).unwrap();
                files.insert(action.original.clone(), content);
                undo.performed(run.record(), Ok(()));
            }
            UndoTask::Remove => {
                files.remove(&action.created);
                undo.performed(run.record(), Ok(()));
            }
            UndoTask::Finished => unreachable!(),
        }
    }
    assert_eq!(undo.finish(), (2, vec![]));
    (start, files)
}

#[test]
fn a_reversed_run_leaves_the_files_as_they_were() {
    for mode in [LinkMode::Hardlink, LinkMode::Symlink, LinkMode::Copy, LinkMode::Move] {
        let (before, after) = round_trip(mode);
        assert_eq!(before, after);
    }
}

#[test]
fn moves_that_chain_are_reversed_last_first() {
    let action = |from: &str, to: &str| UndoAction { created: to.to_string(), original: from.to_string() };
    let record = UndoManifest {
        created: Timestamp { seconds: 0, nanos: 0 },
        mode: LinkMode::Move,
        library_root: "/out".to_string(),
        actions: vec![action("/out/x.pdf", "/out/y.pdf"), action("/out/w.pdf", "/out/x.pdf")],
    };
    let mut files: BTreeMap<String, u32> = BTreeMap::new();
    files.insert("/out/y.pdf".to_string(), 1);
    files.insert("/out/x.pdf".to_string(), 2);
    let mut undo = Undoing::new(&record);
    while let Some(at) = undo.in_hand() {
        let action = &record.actions[at];
        match undo.task() {
            UndoTask::Inspect => {
                let there = files.contains_key(&action.created);
                undo.inspected(&record, there, files.contains_key(&action.original));
            }
            _ => {
                let content = files.remove(&action.created).unwrap();
                files.insert(action.original.clone(), content);
                undo.performed(&record, Ok(()));
            }
        }
    }
    assert_eq!(undo.finish(), (2, vec![]));
    assert_eq!(files.get("/out/x.pdf"), Some(&1));
    assert_eq!(files.get("/out/w.pdf"), Some(&2));
    assert_eq!(files.len(), 2);
}

#[test]
fn a_copy_that_failed_stays_on_record() {
    let plan = plan(LinkMode::Move, vec![assignment("/in/a.pdf", "A/x.pdf", None)]);
    let none = Enrichment::default();
    let mut run = Applying::new(&plan, Timestamp { seconds: 0, nanos: 0 });
    run.take(&plan, false, &none, inspected(true, false));
    run.take(&plan, false, &none, Event::ParentMade);
    run.take(&plan, false, &none, failed(Some(18), "across file systems"));
    assert_eq!(run.task(), Task::Place(Operation::CopyAndRemove));
    run.take(&plan, false, &none, left_behind("removing the original failed"));
    assert_eq!(run.record().actions.len(), 1);
    let report = run.finish(Some("record".to_string()));
    assert_eq!((report.filed, report.failed.len()), (0, 1));
    assert_eq!(report.manifest.as_deref(), Some("record"));
}

#[test]
fn nothing_is_enriched_by_default() {
    let none = Enrichment::default();
    assert_eq!(none.outlines.len(), 0);
    assert_eq!(none.max_growth, 0);
}

#[test]
fn a_copy_that_left_nothing_is_off_the_record() {
    let plan = plan(
        LinkMode::Copy,
        vec![assignment("/in/a.pdf", "A/a.pdf", None), assignment("/in/b.pdf", "A/b.pdf", None)],
    );
    let none = Enrichment::default();
    let mut run = Applying::new(&plan, Timestamp { seconds: 0, nanos: 0 });
    run.take(&plan, false, &none, inspected(true, false));
    run.take(&plan, false, &none, Event::ParentMade);
    run.take(&plan, false, &none, failed(Some(13), "copying: denied"));
    assert!(run.record().actions.is_empty(), "an unreadable source creates no file");
    run.take(&plan, false, &none, inspected(true, false));
    run.take(&plan, false, &none, Event::ParentMade);
    run.take(&plan, false, &none, left_behind("copying: disk full"));
    assert_eq!(run.record().actions.len(), 1, "half a copy is there to be removed");
    let report = run.finish(Some("/work/undo-x.json".to_string()));
    assert_eq!((report.filed, report.failed.len()), (0, 2));
    assert_eq!(report.manifest.as_deref(), Some("/work/undo-x.json"));
}

#[test]
fn a_failed_link_is_off_the_record_whatever_is_there() {
    let plan = plan(LinkMode::Hardlink, vec![assignment("/in/a.pdf", "A/a.pdf", None)]);
    let none = Enrichment::default();
    let mut run = Applying::new(&plan, Timestamp { seconds: 0, nanos: 0 });
    run.take(&plan, false, &none, inspected(true, false));
    run.take(&plan, false, &none, Event::ParentMade);
    run.take(&plan, false, &none, left_behind("hard linking: exists"));
    assert!(run.record().actions.is_empty(), "a file that was not made here is not removed");
}
