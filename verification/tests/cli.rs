use sorting_hat::apply::Report;
use sorting_hat::chapters::{IndexOptions, Indexing};
use sorting_hat::cli::{
    choose_backend, choose_sight, confirms, doctor, is_yes, report_apply, report_index, resolve_config, story_of,
    summarise_skips, Backend, Choice, Findings, Overrides, Sight, NO_LLAMA,
};
use sorting_hat::config::Config;
use sorting_hat::outline::Skip;
use lopdf::{Dictionary, Document, Object};
use sorting_hat::brain::heuristic::Heuristic;

fn none() -> Overrides {
    Overrides { config_given: false, source: None, library: None, work_dir: None, model: None }
}

fn note(path: &str, why: &str) -> (String, String) {
    (path.to_string(), why.to_string())
}

#[test]
fn flags_win_over_the_file() {
    let cfg = resolve_config(Config::default(), &none());
    assert_eq!((cfg.source.as_str(), cfg.library.as_str()), (".", "tmp/library"));
    let mut o = none();
    o.source = Some("/in".to_string());
    o.library = Some("/lib".to_string());
    o.work_dir = Some("/work".to_string());
    o.model = Some("m.gguf".to_string());
    let cfg = resolve_config(Config::default(), &o);
    assert_eq!(cfg.source, "/in");
    assert_eq!(cfg.library, "/lib");
    assert_eq!(cfg.work_dir, "/work");
    assert_eq!(cfg.model.path, "m.gguf");
}

#[test]
fn the_library_lives_in_the_work_directory_unless_told_otherwise() {
    let mut o = none();
    o.work_dir = Some("/work".to_string());
    assert_eq!(resolve_config(Config::default(), &o).library, "/work/library");
    o.config_given = true;
    assert_eq!(resolve_config(Config::default(), &o).library, "tmp/library");
}

#[test]
fn backends_are_chosen() {
    assert_eq!(choose_backend(Backend::Heuristic, true, true), Ok(Choice::Rules));
    assert_eq!(choose_backend(Backend::Llama, true, false), Ok(Choice::Model));
    assert_eq!(choose_backend(Backend::Llama, false, true), Err(NO_LLAMA.to_string()));
    assert_eq!(choose_backend(Backend::Auto, true, true), Ok(Choice::ModelOrRules));
    assert_eq!(choose_backend(Backend::Auto, true, false), Ok(Choice::Rules));
    assert_eq!(choose_backend(Backend::Auto, false, true), Ok(Choice::Rules));
}

#[test]
fn sight_needs_both_files() {
    assert_eq!(choose_sight(Backend::Auto, true, true, true, true), Sight::Load);
    assert_eq!(choose_sight(Backend::Llama, true, true, true, false), Sight::Missing);
    assert_eq!(choose_sight(Backend::Auto, true, true, false, true), Sight::Missing);
    assert_eq!(choose_sight(Backend::Heuristic, true, true, true, true), Sight::Unwanted);
    assert_eq!(choose_sight(Backend::Auto, true, false, true, true), Sight::Unwanted);
    assert_eq!(choose_sight(Backend::Auto, false, true, true, true), Sight::Unwanted);
}

#[test]
fn only_a_yes_is_a_yes() {
    for yes in ["y\n", " YES \n", "Yes", "y"] {
        assert!(confirms(yes), "{:?}", yes);
    }
    for no in ["", "\n", "n", "yeah", "y e s"] {
        assert!(!confirms(no), "{:?}", no);
    }
    assert!(is_yes("yes") && !is_yes("Yes"));
}

#[test]
fn one_story_is_told_once() {
    assert_eq!(story_of("grew from 4 to 9 bytes"), "grew");
    assert_eq!(story_of("no reason"), "no reason");
    assert_eq!(story_of("a from b from c"), "a");
    assert_eq!(summarise_skips(&vec![]), "");
    let skips = vec![note("b", "grew from 4 to 9"), note("a", "encrypted"), note("c", "grew from 5 to 11")];
    assert_eq!(summarise_skips(&skips), "  left alone (3):\n    1 — encrypted\n    2 — grew\n");
}

fn options(dry_run: bool) -> IndexOptions {
    IndexOptions { min_pages: 5, min_ratio: 1.6f32.to_bits(), max_depth: 3, force: false, dry_run }
}

const XML: &str = "<page number=\"1\">\n<fontspec id=\"0\" size=\"10\"/>\n<fontspec id=\"1\" size=\"24\"/>\n<text top=\"5\" left=\"1\" font=\"1\">Chapter One</text>\n<text top=\"20\" left=\"1\" font=\"0\">Body text that goes on for a good long while.</text>\n</page>";

#[test]
fn indexing_reports_what_it_did() {
    let files: Vec<String> = ["x", "y", "0", "1", "2", "3", "z"].iter().map(|s| format!("{}.pdf", s)).collect();
    let doc = Document::new();
    let mut locked = Document::new();
    let id = locked.add_object(Object::Dictionary(Dictionary::new()));
    locked.trailer.set("Encrypt", Object::Reference(id));
    let mut brain: Option<Heuristic> = None;
    let mut run = Indexing::new(files, options(false));
    run.counted(Some(10));
    run.loaded(Ok(&doc));
    run.read(Ok(XML), &mut brain);
    run.written(Ok(4));
    run.counted(Some(10));
    run.loaded(Ok(&doc));
    run.read(Ok(XML), &mut brain);
    run.written(Err(Skip::WouldBloat { before: 1, after: 9 }));
    for _ in 0..4 {
        run.counted(Some(2));
    }
    run.counted(Some(10));
    run.loaded(Ok(&locked));
    assert_eq!(
        report_index(&run),
        "\nindexed 1 documents with 4 bookmarks\n\nleft alone (6):\n  1 — encrypted; cannot be rewritten\n      z.pdf\n  1 — rewriting grew it\n      y.pdf\n  4 — shorter than the page minimum\n      0.pdf\n      1.pdf\n      2.pdf\n      ... and 1 more\n"
    );
}

#[test]
fn a_dry_run_says_what_would_be_done() {
    let mut brain: Option<Heuristic> = None;
    let mut run = Indexing::new(vec!["x.pdf".to_string()], options(true));
    run.counted(Some(10));
    run.loaded(Ok(&Document::new()));
    run.read(Ok(XML), &mut brain);
    assert_eq!(report_index(&run), "\nwould index 1 documents with 1 bookmarks\n");
}

fn report() -> Report {
    Report {
        filed: 3,
        skipped: 1,
        failed: vec![],
        manifest: None,
        stamped: 2,
        stamp_failed: vec![note("s.pdf", "bad")],
        indexed: 1,
        bookmarks: 9,
        index_skipped: vec![note("i.pdf", "short")],
    }
}

#[test]
fn an_apply_reports_what_it_did() {
    assert_eq!(report_apply(&report(), false, false), "\nfiled 3, already present 1, failed 0\n");
    let mut r = report();
    r.manifest = Some("/w/undo-x.json".to_string());
    assert_eq!(
        report_apply(&r, true, true),
        "\nfiled 3, already present 1, failed 0\nstamped 2 PDFs, 1 could not be stamped\n  s.pdf — bad\nindexed 1 documents with 9 bookmarks\n  left alone (1):\n    1 — short\n\nundo with: sorting-hat undo /w/undo-x.json\n"
    );
}

#[test]
fn only_ten_failures_are_shown() {
    let mut r = report();
    r.failed = (0..12).map(|i| note(&format!("f{}.pdf", i), "gone")).collect();
    let text = report_apply(&r, false, false);
    assert!(text.starts_with("\nfiled 3, already present 1, failed 12\n  f0.pdf — gone\n"));
    assert!(text.ends_with("  f9.pdf — gone\n  ... and 2 more\n"));
}

#[test]
fn the_doctor_says_what_is_missing() {
    let mut cfg = Config::default();
    cfg.source = "/in".to_string();
    cfg.library = "/lib".to_string();
    cfg.work_dir = "/work".to_string();
    let mut f = Findings {
        pdftotext: true,
        pdfinfo: false,
        pdftoppm: false,
        pdftohtml: false,
        llama_built: false,
        model: Some(4_650_000_000),
        vision: None,
        projector: Some(49_999_999),
        gpu: None,
        source_pdfs: Ok(0),
        library_pdfs: 7,
        plan_exists: false,
        cached: 0,
    };
    let text = doctor(&f, &cfg);
    let lines: Vec<&str> = text.lines().collect();
    assert_eq!(lines[0], "");
    assert_eq!(lines[1], "External tools");
    assert_eq!(lines[2], format!("  [ok] {:<26} ", "pdftotext"));
    assert_eq!(lines[3], format!("  [--] {:<26} needed to read PDFs at all", "pdfinfo"));
    assert_eq!(lines[4], format!("  [--] {:<26} without it, image-only PDFs cannot be looked at", "pdftoppm"));
    assert_eq!(lines[5], format!("  [--] {:<26} without it, no chapter indexes can be built", "pdftohtml"));
    assert_eq!(lines[7], "Models");
    assert_eq!(lines[8], format!("  [--] {:<26} rebuild with --features cuda", "llama backend"));
    assert_eq!(lines[9], format!("  [ok] {:<26} 4.7 GB  models/model.gguf", "text model"));
    assert_eq!(lines[10], format!("  [--] {:<26} missing: models/Qwen2.5-VL-7B-Instruct-Q4_K_M.gguf", "vision model"));
    assert!(lines[11].contains("0.0 GB  models/mmproj"));
    assert_eq!(lines[14], format!("  [--] {:<26} no NVIDIA GPU visible; the model will run on CPU", "nvidia-smi"));
    assert_eq!(lines[17], format!("  [--] {:<26} 0 PDFs in /in", "source"));
    assert_eq!(lines[18], format!("  [ok] {:<26} 7 PDFs in /lib", "library"));
    assert_eq!(lines[19], format!("  [--] {:<26} none yet; run `sorting-hat plan`", "plan"));
    assert_eq!(lines[20], format!("  [--] {:<26} 0 documents already read", "digest cache"));
    assert!(text.ends_with("already read\n\n"));

    f.llama_built = true;
    f.gpu = Some("RTX".to_string());
    f.source_pdfs = Err("no such directory".to_string());
    f.plan_exists = true;
    f.cached = 3;
    let text = doctor(&f, &cfg);
    assert!(text.contains(&format!("  [ok] {:<26} RTX\n", "nvidia-smi")));
    assert!(text.contains(&format!("  [--] {:<26} /in: no such directory\n", "source")));
    assert!(text.contains(&format!("  [ok] {:<26} /work/plan.json\n", "plan")));
    assert!(text.contains(&format!("  [ok] {:<26} 3 documents already read\n", "digest cache")));
}
