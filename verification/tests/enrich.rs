use lopdf::{Dictionary, Document, Object};
use sorting_hat::apply::{Enriched, SOURCE_MISSING};
use sorting_hat::enrich::{wanted_for, write_wanted, CachedEntry, Outcome, OutlineCache, RefreshEvent, RefreshTask, Refreshing};
use sorting_hat::outline::Entry;
use sorting_hat::types::{Assignment, Digest, LinkMode, Plan, Taxonomy, Timestamp};

fn entry(level: usize, title: &str, page: usize) -> Entry {
    Entry { level, title: title.to_string(), page }
}

fn assignment(hash: &str, stamped: bool) -> Assignment {
    let digest = Digest {
        hash: hash.to_string(),
        path: "/in/a.pdf".to_string(),
        title: "Named".to_string(),
        game_system: "unknown".to_string(),
        doc_type: "unknown".to_string(),
        setting: "unknown".to_string(),
        level_range: "unknown".to_string(),
        publisher: "unknown".to_string(),
        topics: vec![],
        summary: String::new(),
        confidence: 0.9f32.to_bits(),
        source: "test".to_string(),
    };
    Assignment {
        hash: hash.to_string(),
        source: "/in/a.pdf".to_string(),
        dest: "A/a.pdf".to_string(),
        leaf: "A".to_string(),
        title: "Named".to_string(),
        confidence: 0.9f32.to_bits(),
        reason: String::new(),
        digest: if stamped { Some(digest) } else { None },
    }
}

#[test]
fn outlines_come_back_as_they_were_put() {
    let mut cache = OutlineCache::default();
    assert!(cache.get("h").is_none());
    cache.put("h", &[entry(0, "One", 1), entry(1, "Two", 3)]);
    cache.put("other", &[]);
    let got = cache.get("h").unwrap();
    assert_eq!(got.len(), 2);
    assert_eq!((got[1].level, got[1].title.as_str(), got[1].page), (1, "Two", 3));
    assert!(cache.get("other").unwrap().is_empty());
    cache.put("h", &[]);
    assert!(cache.get("h").unwrap().is_empty());
}

#[test]
fn entries_survive_the_cache_form() {
    let cached = CachedEntry::from(&entry(2, "T", 9));
    assert_eq!((cached.level, cached.title.as_str(), cached.page), (2, "T", 9));
    let back = Entry::from(&cached);
    assert_eq!((back.level, back.title.as_str(), back.page), (2, "T", 9));
}

#[test]
fn what_is_wanted_depends_on_what_is_known() {
    let mut cache = OutlineCache::default();
    cache.put("h", &[entry(0, "One", 1)]);
    let plain = assignment("x", false);
    assert!(wanted_for(&plain, &cache).is_nothing());
    let indexed = assignment("h", false);
    assert!(!wanted_for(&indexed, &cache).is_nothing());
    assert!(wanted_for(&indexed, &cache).metadata.is_none());
    let known = assignment("x", true);
    assert_eq!(wanted_for(&known, &cache).metadata.unwrap().title, "Named");
}

#[test]
fn outcomes_add_up() {
    let mut cache = OutlineCache::default();
    cache.put("h", &[entry(0, "One", 1), entry(0, "Two", 2)]);
    let both = assignment("h", true);
    let mut dry = Outcome::default();
    dry.would(&wanted_for(&both, &cache));
    dry.would(&wanted_for(&assignment("x", true), &cache));
    assert_eq!((dry.refreshed, dry.stamped, dry.indexed, dry.bookmarks), (2, 2, 1, 2));

    let mut done = Outcome::default();
    done.settle("/out/a", Ok(Enriched { stamped: true, bookmarks: 2, outline_skipped: None, changed: true }));
    done.settle(
        "/out/b",
        Ok(Enriched { stamped: false, bookmarks: 0, outline_skipped: Some("why".to_string()), changed: false }),
    );
    done.settle("/out/c", Err("broken".to_string()));
    assert_eq!((done.refreshed, done.stamped, done.indexed, done.bookmarks), (2, 1, 1, 2));
    assert_eq!(
        done.skipped,
        vec![("/out/b".to_string(), "why".to_string()), ("/out/c".to_string(), "broken".to_string())]
    );
}

#[test]
fn everything_wanted_is_written_at_once() {
    let mut doc = pristine();
    let mut cache = OutlineCache::default();
    cache.put("h", &[entry(0, "One", 1)]);
    let both = assignment("h", true);
    let done = write_wanted(&mut doc, &wanted_for(&both, &cache)).ok().unwrap();
    assert!(done.stamped && done.changed);
    assert_eq!(done.bookmarks, 1);
    assert!(doc.trailer.has(b"Info"));

    let id = doc.add_object(Object::Dictionary(Dictionary::new()));
    doc.trailer.set("Encrypt", Object::Reference(id));
    assert_eq!(
        write_wanted(&mut doc, &wanted_for(&both, &cache)).err().unwrap(),
        "encrypted; cannot be rewritten"
    );
}

fn plan() -> Plan {
    let mut assignments = vec![
        assignment("x", false),
        assignment("h", true),
        assignment("x", true),
        assignment("x", false),
        assignment("h", false),
    ];
    for (i, a) in assignments.iter_mut().enumerate() {
        a.dest = format!("A/{}.pdf", i);
    }
    Plan {
        created: Timestamp { seconds: 0, nanos: 0 },
        source_root: "/in".to_string(),
        library_root: "/out".to_string(),
        mode: LinkMode::Copy,
        taxonomy: Taxonomy { leaves: vec![], notes: vec![] },
        assignments,
        unfiled: vec![],
        duplicates: vec![],
    }
}

#[test]
fn refreshing_passes_over_what_wants_nothing() {
    let mut cache = OutlineCache::default();
    cache.put("h", &[entry(0, "One", 1), entry(0, "Two", 2)]);
    let plan = plan();
    let mut run = Refreshing::new(&plan, &cache, false);
    assert_eq!((run.task(), run.at()), (RefreshTask::Inspect, 1));
    restore(&mut run, &plan, &cache, true);
    run.take(
        &plan,
        &cache,
        RefreshEvent::Written(Ok(Enriched { stamped: true, bookmarks: 2, outline_skipped: None, changed: true })),
    );
    assert_eq!(run.at(), 2);
    restore(&mut run, &plan, &cache, false);
    run.take(&plan, &cache, RefreshEvent::Written(Err("broken".to_string())));
    assert_eq!(run.at(), 4);
    restore(&mut run, &plan, &cache, true);
    run.take(
        &plan,
        &cache,
        RefreshEvent::Written(Ok(Enriched {
            stamped: false,
            bookmarks: 0,
            outline_skipped: Some("why".to_string()),
            changed: false,
        })),
    );
    assert_eq!(run.task(), RefreshTask::Finished);
    run.take(&plan, &cache, RefreshEvent::Written(Err("late".to_string())));
    let done = run.finish();
    assert_eq!((done.refreshed, done.stamped, done.indexed, done.bookmarks), (2, 1, 1, 2));
    assert_eq!(
        done.skipped,
        vec![("/out/A/2.pdf".to_string(), "broken".to_string()), ("/out/A/4.pdf".to_string(), "why".to_string())]
    );
}

fn restore(run: &mut Refreshing, plan: &Plan, cache: &OutlineCache, dest_exists: bool) {
    run.take(plan, cache, RefreshEvent::Inspected { source_exists: true, dest_exists });
    assert_eq!(run.task(), RefreshTask::MakeParent { there: dest_exists });
    run.take(plan, cache, RefreshEvent::ParentMade);
    if dest_exists {
        assert_eq!(run.task(), RefreshTask::Clear, "a filed copy is removed before the source is copied");
        run.take(plan, cache, RefreshEvent::Copied);
        assert_eq!(run.task(), RefreshTask::Clear, "what was not asked changes nothing");
        run.take(plan, cache, RefreshEvent::Cleared);
    }
    assert_eq!(run.task(), RefreshTask::Copy);
    run.take(plan, cache, RefreshEvent::Copied);
    assert_eq!(run.task(), RefreshTask::Write);
}

#[test]
fn a_document_that_cannot_be_restored_is_passed_by() {
    let mut cache = OutlineCache::default();
    cache.put("h", &[entry(0, "One", 1)]);
    let plan = plan();
    let mut run = Refreshing::new(&plan, &cache, false);
    run.take(&plan, &cache, RefreshEvent::Inspected { source_exists: false, dest_exists: true });
    assert_eq!((run.task(), run.at()), (RefreshTask::Inspect, 2));
    run.take(&plan, &cache, RefreshEvent::Inspected { source_exists: true, dest_exists: true });
    run.take(&plan, &cache, RefreshEvent::ParentMade);
    run.take(&plan, &cache, RefreshEvent::Failed("clearing".to_string()));
    assert_eq!((run.task(), run.at()), (RefreshTask::Inspect, 4));
    run.take(&plan, &cache, RefreshEvent::Inspected { source_exists: true, dest_exists: false });
    run.take(&plan, &cache, RefreshEvent::ParentMade);
    run.take(&plan, &cache, RefreshEvent::Failed("restoring".to_string()));
    assert_eq!(run.task(), RefreshTask::Finished);
    let done = run.finish();
    assert_eq!((done.refreshed, done.stamped, done.indexed, done.bookmarks), (0, 0, 0, 0));
    let whys: Vec<&str> = done.skipped.iter().map(|(_, why)| why.as_str()).collect();
    assert_eq!(whys, [SOURCE_MISSING, "clearing", "restoring"]);
}

#[test]
fn a_dry_refresh_only_counts() {
    let mut cache = OutlineCache::default();
    cache.put("h", &[entry(0, "One", 1), entry(0, "Two", 2)]);
    let run = Refreshing::new(&plan(), &cache, true);
    assert_eq!(run.task(), RefreshTask::Finished);
    let done = run.finish();
    assert_eq!((done.refreshed, done.stamped, done.indexed, done.bookmarks), (3, 2, 2, 4));
}

/// A document of one page.
fn pristine() -> Document {
    let mut doc = Document::new();
    let pages_id = doc.new_object_id();
    let mut page = Dictionary::new();
    page.set("Type", Object::Name(b"Page".to_vec()));
    page.set("Parent", Object::Reference(pages_id));
    let kid = doc.add_object(Object::Dictionary(page));
    let mut list = Dictionary::new();
    list.set("Type", Object::Name(b"Pages".to_vec()));
    list.set("Count", Object::Integer(1));
    list.set("Kids", Object::Array(vec![Object::Reference(kid)]));
    doc.objects.insert(pages_id, Object::Dictionary(list));
    let mut catalog = Dictionary::new();
    catalog.set("Type", Object::Name(b"Catalog".to_vec()));
    catalog.set("Pages", Object::Reference(pages_id));
    let root = doc.add_object(Object::Dictionary(catalog));
    doc.trailer.set("Root", Object::Reference(root));
    doc
}

#[test]
fn writing_anew_from_the_source_gives_the_same_document() {
    let mut cache = OutlineCache::default();
    cache.put("h", &[entry(0, "One", 1), entry(3, "Under it", 1), entry(1, "Next", 1)]);
    let both = assignment("h", true);
    let (mut first, mut second) = (pristine(), pristine());
    let a = write_wanted(&mut first, &wanted_for(&both, &cache)).ok().unwrap();
    let b = write_wanted(&mut second, &wanted_for(&both, &cache)).ok().unwrap();
    assert_eq!((a.stamped, a.bookmarks), (b.stamped, b.bookmarks));
    assert_eq!(first.max_id, second.max_id);
    assert!(first.objects == second.objects);
    assert!(first.trailer == second.trailer);
}
