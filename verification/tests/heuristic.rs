use sorting_hat::brain::heuristic::{
    describe, leaves_for, overlap, title_case, title_from_filename, usable_pdf_title, Heuristic,
};
use sorting_hat::brain::Brain;
use sorting_hat::config::TaxonomyConfig;
use sorting_hat::types::{Digest, Probe, Taxonomy};

fn probe(name: &str, text: &str) -> Probe {
    Probe {
        file_name: name.to_string(),
        pdf_title: None,
        pdf_author: None,
        pdf_subject: None,
        pdf_creator: None,
        page_count: Some(10),
        text: text.to_string(),
        scanned: false,
    }
}

fn digest(title: &str, system: &str, kind: &str) -> Digest {
    Digest {
        hash: "h".to_string(),
        path: "x.pdf".to_string(),
        title: title.to_string(),
        game_system: system.to_string(),
        doc_type: kind.to_string(),
        setting: "unknown".to_string(),
        level_range: "unknown".to_string(),
        publisher: "unknown".to_string(),
        topics: vec![],
        summary: String::new(),
        confidence: 0.5f32.to_bits(),
        source: "heuristic".to_string(),
    }
}

#[test]
fn recognises_a_pathfinder_adventure() {
    let d = (Heuristic).digest(&probe("Skull & Shackles 6.pdf", "A Pathfinder adventure path")).unwrap();
    assert_eq!(d.game_system, "Pathfinder 1e");
    assert_eq!(d.doc_type, "adventure");
}

#[test]
fn recognises_random_tables_by_name() {
    let d = (Heuristic).digest(&probe("100 Nordic Encounters.pdf", "d100 table of encounters")).unwrap();
    assert_eq!(d.doc_type, "random tables");
}

#[test]
fn pulls_a_level_range_out_of_the_text() {
    let d = (Heuristic).digest(&probe("x.pdf", "An adventure for levels 5 to 10")).unwrap();
    assert_eq!(d.level_range, "5-10");
}

#[test]
fn scanned_documents_lose_confidence() {
    let mut p = probe("Ghosts of Saltmarsh.pdf", "");
    p.scanned = true;
    let d = (Heuristic).digest(&p).unwrap();
    let confidence = f32::from_bits(d.confidence);
    assert!(confidence < 0.4, "got {}", confidence);
}

#[test]
fn rejects_junk_embedded_titles() {
    assert!(!usable_pdf_title("Microsoft Word - draft.doc"));
    assert!(!usable_pdf_title("Untitled"));
    assert!(usable_pdf_title("Ghosts of Saltmarsh"));
}

#[test]
fn every_digest_lands_somewhere() {
    let tax = Taxonomy {
        leaves: vec!["D&D 5e/Adventure".to_string(), "D&D 5e/Other".to_string()],
        notes: vec![],
    };
    let filing = (Heuristic).file(&digest("T", "D&D 5e", "spells"), &tax).unwrap();
    assert!(tax.contains(&filing.folder));
    assert_eq!(filing.folder, "D&D 5e/Other");
    assert_eq!(filing.confidence, (0.5f32 - 0.15).max(0.0).to_bits());
}

#[test]
fn an_exact_leaf_comes_first() {
    let tax = Taxonomy {
        leaves: vec!["D&D 5e/Magic Items".to_string(), "D&D 5e/Other".to_string()],
        notes: vec![],
    };
    let filing = (Heuristic).file(&digest("T", "D&D 5e", "magic items"), &tax).unwrap();
    assert_eq!(filing.folder, "D&D 5e/Magic Items");
    assert_eq!(filing.confidence, 0.5f32.to_bits());
    assert_eq!(filing.reason, "system and type match a leaf exactly");
}

#[test]
fn the_last_of_equally_close_leaves_is_taken() {
    let tax = Taxonomy {
        leaves: vec!["Ghosts/A".to_string(), "Ghosts/B".to_string(), "Maps".to_string()],
        notes: vec![],
    };
    let d = digest("Ghosts of Saltmarsh", "D&D 5e", "adventure");
    assert_eq!(overlap("Ghosts/A", &d), 1);
    assert_eq!(overlap("Maps", &d), 0);
    let filing = (Heuristic).file(&d, &tax).unwrap();
    assert_eq!(filing.folder, "Ghosts/B");
    assert_eq!(filing.confidence, (0.5f32 - 0.3).max(0.0).to_bits());
    let none = Taxonomy { leaves: vec![], notes: vec![] };
    assert_eq!((Heuristic).file(&d, &none).unwrap().folder, "Other");
}

#[test]
fn a_taxonomy_keeps_what_earns_a_folder() {
    let corpus = vec![
        digest("a", "D&D 5e", "maps"),
        digest("b", "D&D 5e", "maps"),
        digest("c", "D&D 5e", "spells"),
        digest("d", "Pathfinder 1e", "maps"),
    ];
    let mut cfg = TaxonomyConfig { max_leaves: 40, max_depth: 3, min_docs_per_leaf: 2, min_confidence: 0.45f32.to_bits() };
    assert_eq!(
        leaves_for(&corpus, &cfg),
        vec!["D&D 5e/Maps".to_string(), "D&D 5e/Other".to_string(), "Pathfinder 1e/Other".to_string()]
    );
    cfg.max_leaves = 1;
    let t = (Heuristic).design_taxonomy(&corpus, &cfg).unwrap();
    assert_eq!(t.leaves, vec!["D&D 5e/Maps".to_string()]);
}

#[test]
fn four_signals_are_as_sure_as_rules_get() {
    let d = describe(
        "T".to_string(),
        "eberron 5e.pdf",
        "an adventure by wizards of the coast",
        Some(("1".to_string(), "5".to_string())),
        false,
    );
    assert_eq!(d.confidence, (0.25f32 + 0.1 * 4.0).min(0.65).to_bits());
    assert_eq!(d.setting, "Eberron");
    assert_eq!(d.publisher, "Wizards of the Coast");
    assert_eq!(d.level_range, "1-5");
    let none = describe("T".to_string(), "x.pdf", "", None, true);
    assert_eq!(none.confidence, (0.25f32 - 0.2).max(0.1).to_bits());
    assert_eq!(none.game_system, "system neutral");
    assert_eq!(none.doc_type, "other");
}

#[test]
fn file_names_become_titles() {
    assert_eq!(title_from_filename("Ghosts_of_Saltmarsh.v2.pdf"), "Ghosts of Saltmarsh v2");
    assert_eq!(title_from_filename("Skull - Part 1.pdf"), "Skull — Part 1");
    assert_eq!(title_from_filename("well-known.pdf"), "well-known");
}

#[test]
fn an_embedded_title_beats_a_file_name() {
    let mut p = probe("PZO1.pdf", "");
    p.pdf_title = Some("  Town Square ".to_string());
    assert_eq!((Heuristic).digest(&p).unwrap().title, "Town Square");
    p.pdf_title = Some("layout.indd".to_string());
    assert_eq!((Heuristic).digest(&p).unwrap().title, "PZO1");
}

#[test]
fn words_start_with_capitals() {
    assert_eq!(title_case("magic  items"), "Magic Items");
    assert_eq!(title_case("ärger"), "Ärger");
    assert_eq!(title_case(""), "");
}

#[test]
fn rules_leave_headings_alone() {
    let mut h = Heuristic;
    assert_eq!(h.refine_headings(&vec![], 3), Ok(None));
    assert_eq!(h.name(), "heuristic");
}
