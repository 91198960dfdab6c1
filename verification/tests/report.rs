use sorting_hat::report::{print_confidence, summary, tree};
use sorting_hat::types::{Assignment, Duplicate, LinkMode, Plan, Taxonomy, Timestamp, Unfiled};

fn assignment(leaf: &str, source: &str, dest: &str, confidence: f32) -> Assignment {
    Assignment {
        hash: source.to_string(),
        source: source.to_string(),
        dest: dest.to_string(),
        leaf: leaf.to_string(),
        title: "t".to_string(),
        confidence: confidence.to_bits(),
        reason: String::new(),
        digest: None,
    }
}

fn plan() -> Plan {
    Plan {
        created: Timestamp { seconds: 0, nanos: 0 },
        source_root: "/in".to_string(),
        library_root: "/out".to_string(),
        mode: LinkMode::Hardlink,
        taxonomy: Taxonomy {
            leaves: vec!["5e/Adventures".to_string(), "5e/Maps".to_string()],
            notes: vec![],
        },
        assignments: vec![
            assignment("5e/Maps", "/in/map.pdf", "5e/Maps/map.pdf", 0.995),
            assignment("5e/Adventures", "/in/x1.pdf", "5e/Adventures/Lost Mine.pdf", 0.87),
            assignment("_Unsorted", "/in/odd.pdf", "_Unsorted/odd.pdf", 0.004),
            assignment("5e/Maps", "/in/m2.pdf", "5e/Maps/Town.pdf", 1.0),
        ],
        unfiled: vec![Unfiled { path: "/in/bad.pdf".to_string(), reason: "r".to_string() }],
        duplicates: vec![Duplicate {
            hash: "h".to_string(),
            kept: "/in/map.pdf".to_string(),
            others: vec!["/in/a.pdf".to_string(), "/in/b.pdf".to_string()],
        }],
    }
}

#[test]
fn the_tree_shows_folders_once() {
    assert_eq!(tree(&plan(), false), "5e/\n  Adventures/  (1)\n  Maps/  (2)\n_Unsorted/  (1)\n");
}

#[test]
fn the_full_tree_shows_every_document() {
    assert_eq!(
        tree(&plan(), true),
        "5e/\n  Adventures/  (1)\n    Lost Mine.pdf  [0.87]\n      was: x1.pdf\n  Maps/  (2)\n    map.pdf  [1.00]\n    Town.pdf  [1.00]\n      was: m2.pdf\n_Unsorted/  (1)\n  odd.pdf  [0.00]\n"
    );
}

#[test]
fn the_summary_counts() {
    assert_eq!(
        summary(&plan()),
        "  source     /in\n  library    /out\n  mode       Hardlink\n  folders    2\n  filed      3\n  unsorted   1\n  renamed    2\n  duplicates 2 (not filed)\n  unreadable 1\n"
    );
}

#[test]
fn confidences_have_two_decimals() {
    assert_eq!(print_confidence(0.0f32.to_bits()), "0.00");
    assert_eq!(print_confidence(0.45f32.to_bits()), "0.45");
    assert_eq!(print_confidence(1.0f32.to_bits()), "1.00");
    assert_eq!(print_confidence(0.285f32.to_bits()), "0.28", "the number is a little below what was written");
    assert_eq!(print_confidence(0.995f32.to_bits()), "1.00");
    assert_eq!(print_confidence(0.125f32.to_bits()), "0.12", "to the even one of two that are equally near");
    assert_eq!(print_confidence(0.375f32.to_bits()), "0.38");
    for n in 0..=2000u32 {
        let x = n as f32 / 1000.0;
        assert_eq!(print_confidence(x.to_bits()), format!("{:.2}", x));
    }
}

#[test]
fn a_folder_is_drawn_before_what_lies_in_it() {
    let mut p = plan();
    p.assignments = vec![
        assignment("A/C", "1.pdf", "A/C/1.pdf", 0.001),
        assignment("A B", "2.pdf", "A B/2.pdf", 0.001),
        assignment("A", "3.pdf", "A/3.pdf", 0.001),
    ];
    assert_eq!(tree(&p, false), "A/  (1)\n  C/  (1)\nA B/  (1)\n");
}
