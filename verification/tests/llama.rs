use sorting_hat::brain::llama::{
    catalogue_batch_size, checked_filing, design_question, digest_question, filing_question, finish_taxonomy,
    fitting_batch, heading_reply_budget, label, vision_question, Refining,
};
use sorting_hat::brain::prompt::{digest_user, headings_user, vision_digest_user};
use sorting_hat::brain::{Filing, Selection};
use sorting_hat::config::TaxonomyConfig;
use sorting_hat::types::{Probe, Taxonomy};

/// The worst case is the model keeping every candidate, which happens on books
/// whose large type really is all chapter headings.
#[test]
fn a_reply_budget_covers_every_candidate_being_kept() {
    for n in [1usize, 50, 200] {
        assert!(heading_reply_budget(n) as usize >= n * 11 + 8, "{n} candidates");
    }
}

#[test]
fn a_catalogue_batch_leaves_room_to_answer() {
    for context in [4096u32, 8192, 32768] {
        let n = catalogue_batch_size(context);
        assert!(n * 30 < context as usize, "context {context}: {n} lines is too many");
    }
}

#[test]
fn batch_sizes_are_clamped() {
    assert_eq!(catalogue_batch_size(0), 20);
    assert_eq!(catalogue_batch_size(8192), 136);
    assert_eq!(catalogue_batch_size(u32::MAX), 400);
    assert_eq!(heading_reply_budget(200), 3264);
}

#[test]
fn a_backend_is_named_after_its_model() {
    assert_eq!(label("llama", "models/model.gguf"), "llama:model");
    assert_eq!(label("vision", ""), "vision");
}

fn lines(n: usize) -> Vec<(usize, String, usize)> {
    let mut v = Vec::new();
    for i in 0..n {
        v.push((i, format!("Heading {i}"), i + 1));
    }
    v
}

#[test]
fn a_batch_is_cut_until_it_fits() {
    // A tokeniser that counts a token for each character.
    let measure = |system: &str, user: &str| -> usize { system.len() + user.len() };
    let all = lines(150);
    let take = fitting_batch(&measure, &all, 4096);
    assert!(take > 1 && take < 150, "{take}");
    let cost = measure(&sorting_hat::brain::prompt::headings_system(), &headings_user(&all[..take]));
    assert!(cost + heading_reply_budget(take) as usize <= 4096 - 256);
    assert_eq!(fitting_batch(&measure, &all, 100_000), 150);
    assert_eq!(fitting_batch(&measure, &all, 0), 1);
    assert_eq!(fitting_batch(&measure, &lines(500), 1_000_000), 200);
}

#[test]
fn the_largest_batch_that_fits_is_taken() {
    // A batch of 58 lines costs 2000 and 992 more, one of 59 lines 3008.
    let measure = |_: &str, _: &str| -> usize { 2000 };
    assert_eq!(fitting_batch(&measure, &lines(100), 3256), 58);
    assert_eq!(fitting_batch(&measure, &lines(1), 0), 1);
    assert_eq!(fitting_batch(&measure, &[], 3256), 1);
    let unmeasurable = |_: &str, _: &str| -> usize { usize::MAX };
    assert_eq!(fitting_batch(&unmeasurable, &lines(100), u32::MAX), 1);
}

#[test]
fn headings_are_judged_a_batch_at_a_time() {
    let all = lines(5);
    let mut state = Refining::new();
    let q = state.ask(&all, 3, 2);
    assert_eq!(q.user, headings_user(&all[..3]));
    assert!(q.grammar.contains("[0-9]{1,1}"));
    assert_eq!(q.max_tokens, heading_reply_budget(3));
    let picks = vec![
        Selection { i: 2, l: 7 },
        Selection { i: 4, l: 0 },
        Selection { i: 0, l: 0 },
        Selection { i: 2, l: 0 },
    ];
    // Line 4 is not in this batch, and level 7 is too deep.
    state.answer(&all, 3, &picks, 2);
    let q = state.ask(&all, 2, 2);
    assert_eq!(q.user, headings_user(&all[3..]));
    state.answer(&all, 2, &vec![Selection { i: 4, l: 1 }], 2);
    assert_eq!(state.finish(), vec![(0, 0), (2, 1), (4, 1)]);
}

#[test]
fn a_designed_taxonomy_is_sorted_and_free_of_blanks() {
    let leaves = vec!["b".to_string(), " ".to_string(), "a".to_string(), "b".to_string()];
    let t = finish_taxonomy(leaves).unwrap();
    assert_eq!(t.leaves, vec!["a".to_string(), "b".to_string()]);
    let err = finish_taxonomy(vec!["  ".to_string()]).err().unwrap();
    assert_eq!(err, "model designed an empty taxonomy");
}

#[test]
fn a_folder_outside_the_taxonomy_is_refused() {
    let taxonomy = Taxonomy { leaves: vec!["A".to_string()], notes: vec![] };
    let good = Filing { folder: "A".to_string(), confidence: 0.9f32.to_bits(), reason: String::new() };
    assert_eq!(checked_filing(good, &taxonomy).unwrap().folder, "A");
    let bad = Filing { folder: "B\"".to_string(), confidence: 0.9f32.to_bits(), reason: String::new() };
    assert_eq!(
        checked_filing(bad, &taxonomy).err().unwrap(),
        "model chose folder \"B\\\"\", which is not in the taxonomy"
    );
}

fn probe() -> Probe {
    Probe {
        file_name: "x.pdf".to_string(),
        pdf_title: None,
        pdf_author: None,
        pdf_subject: None,
        pdf_creator: None,
        page_count: None,
        text: "words".to_string(),
        scanned: false,
    }
}

#[test]
fn questions_carry_their_prompts() {
    let q = digest_question(&probe(), 77);
    assert_eq!(q.user, digest_user(&probe()));
    assert_eq!(q.max_tokens, 77);
    let v = vision_question("<image>", &probe(), 9);
    assert_eq!(v.user, format!("<image>\n{}", vision_digest_user(&probe())));
    let cfg = TaxonomyConfig { max_leaves: 40, max_depth: 3, min_docs_per_leaf: 3, min_confidence: 0.45f32.to_bits() };
    let first = design_question(&[], &Vec::new(), &cfg);
    assert_eq!(first.max_tokens, 960);
    let next = design_question(&[], &vec!["A".to_string(), "B".to_string()], &cfg);
    assert_eq!(
        next.user,
        format!(
            "{}\nFolders already designed for the rest of the collection — keep the ones that still fit and merge rather than duplicate:\nA\nB\n",
            first.user
        )
    );
    let many = TaxonomyConfig { max_leaves: 1000, max_depth: 3, min_docs_per_leaf: 3, min_confidence: 0.45f32.to_bits() };
    assert_eq!(design_question(&[], &Vec::new(), &many).max_tokens, 4096);
    let taxonomy = Taxonomy { leaves: vec!["A".to_string()], notes: vec![] };
    let digest = sorting_hat::types::Digest {
        hash: "h".to_string(),
        path: "p".to_string(),
        title: "T".to_string(),
        game_system: "S".to_string(),
        doc_type: "D".to_string(),
        setting: "E".to_string(),
        level_range: "L".to_string(),
        publisher: "P".to_string(),
        topics: vec![],
        summary: String::new(),
        confidence: 0.001f32.to_bits(),
        source: "x".to_string(),
    };
    assert_eq!(filing_question(&digest, &taxonomy).max_tokens, 192);
}
