use lopdf::{Dictionary, Document, Object};
use sorting_hat::metadata::{apply_to_doc, entries, has_room, may_write, plausible};
use sorting_hat::types::{Digest, LinkMode};
use std::collections::HashMap;

fn digest() -> Digest {
    Digest {
        hash: "h".to_string(),
        path: "x.pdf".to_string(),
        title: "Town Square".to_string(),
        game_system: "Pathfinder 1e".to_string(),
        doc_type: "maps".to_string(),
        setting: "unknown".to_string(),
        level_range: "unknown".to_string(),
        publisher: "Paizo".to_string(),
        topics: vec!["battle map".to_string(), "town".to_string()],
        summary: "A gridded town square for encounters.".to_string(),
        confidence: 0.9f32.to_bits(),
        source: "vision".to_string(),
    }
}

#[test]
fn never_stamps_through_a_link() {
    assert!(may_write(LinkMode::Hardlink).is_err());
    assert!(may_write(LinkMode::Symlink).is_err());
    assert!(may_write(LinkMode::Copy).is_ok());
    assert!(may_write(LinkMode::Move).is_ok());
}

#[test]
fn builds_the_expected_fields() {
    let fields = entries(&digest());
    let map: HashMap<_, _> = fields.into_iter().collect();
    assert_eq!(map["Title"], "Town Square");
    assert_eq!(map["Author"], "Paizo");
    assert!(map["Subject"].starts_with("A gridded town square"));
    // "unknown" setting and level range must not reach the keywords.
    assert_eq!(map["Keywords"], "Pathfinder 1e, maps, battle map, town");
}

#[test]
fn rejects_implausible_rewrites() {
    let mb = 1u64 << 20;
    assert!(plausible(10 * mb, 10 * mb + 500, 0.25f32.to_bits()).is_ok(), "a few hundred bytes is normal");
    assert!(plausible(10 * mb, 4 * mb, 0.25f32.to_bits()).is_err(), "losing half the file is corruption");
    assert!(plausible(10 * mb, 30 * mb, 0.25f32.to_bits()).is_err(), "tripling the file is bloat");
    assert!(plausible(1000, 1500, 0.25f32.to_bits()).is_ok(), "small files get absolute slack, not a ratio");
    assert!(plausible(0, 5000, 0.25f32.to_bits()).is_ok(), "an unknown original cannot be judged");
}

#[test]
fn says_nothing_when_it_knows_nothing() {
    let mut d = digest();
    d.title = "unknown".to_string();
    d.publisher = "unknown".to_string();
    d.summary = String::new();
    d.game_system = "unknown".to_string();
    d.doc_type = "unknown".to_string();
    d.topics.clear();
    assert!(entries(&d).is_empty(), "nothing known should mean nothing written");
    let mut doc = Document::new();
    assert!(apply_to_doc(&mut doc, &d, true).is_empty());
    assert!(doc.objects.is_empty());
    assert!(!doc.trailer.has(b"Info"));
}

#[test]
fn adjacent_keywords_are_not_repeated() {
    let mut d = digest();
    d.topics = vec!["maps".to_string(), "maps".to_string(), "town".to_string(), "maps".to_string()];
    d.setting = "maps".to_string();
    let map: HashMap<_, _> = entries(&d).into_iter().collect();
    assert_eq!(map["Keywords"], "Pathfinder 1e, maps, town, maps");
}

fn info(doc: &Document) -> &Dictionary {
    let id = doc.trailer.get(b"Info").unwrap().as_reference().unwrap();
    doc.get_object(id).unwrap().as_dict().unwrap()
}

#[test]
fn occupied_fields_are_kept_unless_overwritten() {
    let mut doc = Document::new();
    let mut start = Dictionary::new();
    start.set("Title", Object::string_literal("Mine"));
    start.set("Author", Object::string_literal(""));
    start.set("Creator", Object::string_literal("Tool"));
    let id = doc.add_object(Object::Dictionary(start));
    doc.trailer.set("Info", Object::Reference(id));
    assert!(has_room(&doc));
    let written = apply_to_doc(&mut doc, &digest(), false);
    assert_eq!(written, vec!["Author", "Subject", "Keywords"]);
    assert_eq!(info(&doc).get(b"Title").unwrap().as_str().unwrap(), b"Mine");
    assert_eq!(info(&doc).get(b"Author").unwrap().as_str().unwrap(), b"Paizo");
    assert_eq!(info(&doc).get(b"Creator").unwrap().as_str().unwrap(), b"Tool");
    assert_eq!(info(&doc).get(b"Producer").unwrap().as_str().unwrap(), b"sorting-hat");
    let written = apply_to_doc(&mut doc, &digest(), true);
    assert_eq!(written.len(), 4);
    assert_eq!(info(&doc).get(b"Title").unwrap().as_str().unwrap(), b"Town Square");
}

#[test]
fn a_full_document_has_no_room() {
    let mut doc = Document::new();
    doc.max_id = u32::MAX;
    assert!(!has_room(&doc));
}

#[test]
fn refused_rewrites_say_why() {
    assert_eq!(
        plausible(100, 49, 0.25f32.to_bits()).unwrap_err(),
        "rewriting shrank the PDF from 100 to 49 bytes; discarding the result"
    );
    assert_eq!(
        plausible(1000, 2_000_000, 0.25f32.to_bits()).unwrap_err(),
        "rewriting grew the PDF from 1000 to 2000000 bytes; discarding the result rather than bloating the library"
    );
    assert!(may_write(LinkMode::Hardlink).unwrap_err().starts_with("--write-metadata cannot be used with --mode hardlink.\nA hard link"));
    assert!(may_write(LinkMode::Symlink).unwrap_err().contains("A symlink points at the original"));
}

#[test]
fn less_than_half_is_refused() {
    assert!(plausible(3, 1, 0.25f32.to_bits()).is_err());
    assert!(plausible(3, 2, 0.25f32.to_bits()).is_ok());
    assert!(plausible(100, 50, 0.25f32.to_bits()).is_ok());
}
