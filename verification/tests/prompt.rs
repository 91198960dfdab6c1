use sorting_hat::brain::prompt::{
    assign_grammar, assign_system, assign_user, digest_grammar, digest_system, digest_user, escape_gbnf,
    escape_json,
    headings_grammar, headings_system, headings_user, taxonomy_grammar, taxonomy_system, taxonomy_user,
    vision_digest_system, vision_digest_user,
};
use sorting_hat::config::TaxonomyConfig;
use sorting_hat::types::{Digest, Probe, Taxonomy};

/// A GBNF parser ends a rule at the newline. A rule accidentally wrapped across
/// two lines fails to parse at run time, on the GPU, after a model load — so
/// catch it here instead.
fn assert_one_rule_per_line(grammar: &str) {
    for line in grammar.lines() {
        let line = line.trim();
        if line.is_empty() {
            continue;
        }
        assert!(line.contains("::="), "line is a continuation of the rule above it: {line:?}");
    }
}

fn cfg() -> TaxonomyConfig {
    TaxonomyConfig { max_leaves: 40, max_depth: 3, min_docs_per_leaf: 3, min_confidence: 0.45f32.to_bits() }
}

fn probe(scanned: bool) -> Probe {
    Probe {
        file_name: "PZO31005E.pdf".to_string(),
        pdf_title: Some("Town Square".to_string()),
        pdf_author: None,
        pdf_subject: Some("Maps".to_string()),
        pdf_creator: None,
        page_count: Some(2),
        text: "Opening words".to_string(),
        scanned,
    }
}

fn digest() -> Digest {
    Digest {
        hash: "h".to_string(),
        path: "x.pdf".to_string(),
        title: "T".to_string(),
        game_system: "D&D 5e".to_string(),
        doc_type: "maps".to_string(),
        setting: "Eberron".to_string(),
        level_range: "1-5".to_string(),
        publisher: "Paizo".to_string(),
        topics: vec!["a".to_string(), "b".to_string()],
        summary: "One line.".to_string(),
        confidence: 0.5f32.to_bits(),
        source: "s".to_string(),
    }
}

#[test]
fn every_grammar_keeps_one_rule_per_line() {
    let taxonomy = Taxonomy { leaves: vec!["A/B".to_string(), "C".to_string()], notes: vec![] };
    assert_one_rule_per_line(&digest_grammar());
    assert_one_rule_per_line(&taxonomy_grammar(&cfg()));
    assert_one_rule_per_line(&assign_grammar(&taxonomy));
}

#[test]
fn digest_grammar_names_every_field() {
    let grammar = digest_grammar();
    for field in [
        "title", "game_system", "doc_type", "setting", "level_range", "publisher", "topics",
        "summary", "confidence",
    ] {
        assert!(grammar.contains(field), "{field} missing from the digest grammar");
    }
}

#[test]
fn assign_grammar_admits_only_existing_folders() {
    let taxonomy = Taxonomy { leaves: vec!["D&D 5e/Adventures".to_string()], notes: vec![] };
    let grammar = assign_grammar(&taxonomy);
    assert!(grammar.contains(r#""\"D&D 5e/Adventures\"""#));
}

#[test]
fn quotes_in_a_folder_name_cannot_break_out_of_the_literal() {
    let taxonomy = Taxonomy { leaves: vec![r#"a" | "b"#.to_string()], notes: vec![] };
    let grammar = assign_grammar(&taxonomy);
    let folder = grammar.lines().find(|l| l.starts_with("folder ::=")).unwrap();
    assert_eq!(folder.matches('|').count(), 1, "escaped quote leaked an alternative: {folder}");
}

/// A JSON key in a GBNF literal must keep its escaped quotes. Losing them turns
/// `"\"i\":"` into `""i":"`, which is rejected at load time.
#[test]
fn json_keys_keep_their_escaped_quotes() {
    let g = headings_grammar(283, 3);
    assert!(g.contains(r#"\"i\":"#), "lost escapes in:\n{g}");
    assert!(g.contains(r#"\"l\":"#), "lost escapes in:\n{g}");
    assert!(!g.contains(r#"{"i":"#), "unescaped key in:\n{g}");
}

/// White space in this grammar is a token budget leak, not a style choice.
#[test]
fn the_reply_grammar_permits_no_pretty_printing() {
    let g = headings_grammar(283, 3);
    let root = g.lines().find(|l| l.starts_with("root ::=")).unwrap();
    assert!(!root.contains("ws"), "whitespace allowed in: {root}");
    let item = g.lines().find(|l| l.starts_with("item ::=")).unwrap();
    assert!(!item.contains("ws"), "whitespace allowed in: {item}");
}

#[test]
fn index_width_follows_the_candidate_count() {
    assert!(headings_grammar(9, 3).contains("[0-9]{1,1}"));
    assert!(headings_grammar(283, 3).contains("[0-9]{1,3}"));
}

#[test]
fn headings_grammar_keeps_one_rule_per_line() {
    for line in headings_grammar(283, 3).lines() {
        let line = line.trim();
        if !line.is_empty() {
            assert!(line.contains("::="), "continuation line: {line:?}");
        }
    }
}

#[test]
fn the_whole_headings_grammar() {
    assert_eq!(
        headings_grammar(42, 20),
        "root ::= \"[\" (item (\",\" item)*)? \"]\"\nitem ::= \"{\\\"i\\\":\" index \",\\\"l\\\":\" [0-9] \"}\"\nindex ::= [0-9]{1,2}\n"
    );
    assert!(headings_grammar(0, 0).contains("[0-0]"));
}

#[test]
fn limits_reach_the_taxonomy_grammar() {
    let g = taxonomy_grammar(&cfg());
    assert!(g.contains("{0,39}"));
    assert!(g.contains("{0,2}"));
    let none = TaxonomyConfig { max_leaves: 0, max_depth: 0, min_docs_per_leaf: 0, min_confidence: 0 };
    assert!(taxonomy_grammar(&none).contains("leaf){0,0})?"));
    assert!(taxonomy_system(&cfg()).contains("no more than 40 leaf folders at most 3 levels deep."));
}

#[test]
fn the_whole_digest_rule() {
    let g = digest_grammar();
    let root = g.lines().next().unwrap();
    assert_eq!(
        root,
        "root ::= \"{\" ws \"\\\"title\\\":\" ws string \",\" ws \"\\\"game_system\\\":\" ws string \",\" ws \"\\\"doc_type\\\":\" ws string \",\" ws \"\\\"setting\\\":\" ws string \",\" ws \"\\\"level_range\\\":\" ws string \",\" ws \"\\\"publisher\\\":\" ws string \",\" ws \"\\\"topics\\\":\" ws \"[\" ws (string (ws \",\" ws string){0,5})? ws \"]\" \",\" ws \"\\\"summary\\\":\" ws string \",\" ws \"\\\"confidence\\\":\" ws conf ws \"}\""
    );
}

#[test]
fn a_probe_is_described_line_by_line() {
    let s = digest_user(&probe(false));
    assert!(s.starts_with(
        "Catalogue this document.\n\nFile name: PZO31005E.pdf\nEmbedded title: Town Square\nEmbedded subject: Maps\nPages: 2\n\nOpening text:\n---\nOpening words\n---\n\nFields:\n- title:"
    ));
    assert!(!s.contains("Embedded author"));
    let scan = digest_user(&probe(true));
    assert!(scan.contains("\nNo text could be extracted; this is an image scan. Judge from"));
    assert!(!scan.contains("Opening words"));
    let seen = vision_digest_user(&probe(true));
    assert!(seen.starts_with(
        "This is the first page of a PDF.\n\nFile name: PZO31005E.pdf\nEmbedded title: Town Square\nPages: 2\n\nThe file name may be"
    ));
}

#[test]
fn a_catalogue_has_a_line_for_each_document() {
    let corpus = vec![digest(), digest()];
    assert_eq!(
        taxonomy_user(&corpus),
        "Catalogue:\n- T | D&D 5e | maps | Eberron\n- T | D&D 5e | maps | Eberron\n\nDesign the leaf folder paths for this collection.\n"
    );
}

#[test]
fn a_filing_request_lists_the_folders() {
    let taxonomy = Taxonomy { leaves: vec!["A/B".to_string(), "C".to_string()], notes: vec![] };
    assert_eq!(
        assign_user(&digest(), &taxonomy),
        "Folders:\n- A/B\n- C\n\nDocument:\n- title: T\n- system: D&D 5e\n- type: maps\n- setting: Eberron\n- levels: 1-5\n- topics: a, b\n- summary: One line.\n\nFile it.\n"
    );
}

#[test]
fn heading_lines_are_numbered() {
    let lines = vec![(3usize, "Combat".to_string(), 12usize)];
    assert_eq!(
        headings_user(&lines),
        "Lines of large type, in reading order:\n3: Combat  (page 12)\n\nWhich of these belong in the table of contents?\n"
    );
}

#[test]
fn backslashes_and_quotes_are_escaped() {
    assert_eq!(escape_gbnf(r#"a\b"c"#), r#"a\\b\"c"#);
    assert_eq!(escape_gbnf("plain"), "plain");
}

#[test]
fn instructions_are_single_paragraphs_of_prose() {
    for text in [digest_system(), vision_digest_system(), assign_system()] {
        assert!(text.starts_with("You "));
        assert!(!text.contains('\n'));
    }
    assert!(headings_system().ends_with("{\"i\": line number, \"l\": level}."));
}

#[test]
fn different_folders_have_different_alternatives() {
    let one = Taxonomy { leaves: vec!["a\\".to_string()], notes: vec![] };
    let two = Taxonomy { leaves: vec!["a\"".to_string()], notes: vec![] };
    assert_ne!(assign_grammar(&one), assign_grammar(&two));
    assert!(assign_grammar(&one).contains(r#"folder ::= "\"a\\\\\"""#));
    assert!(assign_grammar(&two).contains(r#"folder ::= "\"a\\\"\"""#));
}

#[test]
fn folders_are_json_strings_whatever_they_are_called() {
    assert_eq!(escape_json("a\\b\"c\n\u{1f}d"), "a\\\\b\\\"c\\u000a\\u001fd");
    let tax = Taxonomy {
        leaves: vec!["two\nlines".to_string(), "a \"quote\"".to_string()],
        notes: vec![],
    };
    let g = assign_grammar(&tax);
    assert_one_rule_per_line(&g);
    assert_eq!(g.lines().filter(|l| l.starts_with("folder ::=")).count(), 1);
    let folder = g.lines().find(|l| l.starts_with("folder ::=")).unwrap();
    assert_eq!(
        folder,
        "folder ::= \"\\\"two\\\\u000alines\\\"\" | \"\\\"a \\\\\\\"quote\\\\\\\"\\\"\""
    );
}

#[test]
fn strings_admit_no_raw_control_character() {
    let g = digest_grammar();
    let rule = g.lines().find(|l| l.starts_with("char ::=")).unwrap();
    assert!(rule.starts_with("char ::= [^\"\\\\\\x00-\\x1f]"), "{rule}");
}
