use lopdf::{Dictionary, Document, Object};
use sorting_hat::brain::heuristic::Heuristic;
use sorting_hat::brain::{Brain, DigestFields, Filing};
use sorting_hat::chapters::{
    apply_picks, check_pages, files_to_index, index_from, lines_for, refine_entries, suggested_entries, IndexOptions, IndexTask,
    Indexing, PrepareTask, Preparing,
};
use sorting_hat::config::{BookmarksConfig, TaxonomyConfig};
use sorting_hat::outline::{Candidate, Entry, Skip};
use sorting_hat::types::{Assignment, Digest, LinkMode, Plan, Probe, Taxonomy, Timestamp};

/// The bit pattern of 1.6.
const RATIO: u32 = 0x3fcc_cccd;

fn entry(level: usize, title: &str, page: usize) -> Entry {
    Entry { level, title: title.to_string(), page }
}

#[test]
fn short_documents_get_no_index() {
    assert!(matches!(check_pages(Some(9), 10), Err(Skip::TooShort { pages: 9 })));
    assert!(matches!(check_pages(None, 1), Err(Skip::TooShort { pages: 0 })));
    assert!(check_pages(Some(10), 10).is_ok());
    assert!(check_pages(None, 0).is_ok());
}

#[test]
fn type_sizes_suggest_an_index() {
    assert!(matches!(suggested_entries(&vec![], 3), Err(Skip::NoHeadings)));
    let found = vec![
        Candidate { page: 1, top: 0, text: "One".to_string(), size: 24.0f32.to_bits() },
        Candidate { page: 2, top: 0, text: "Two".to_string(), size: 18.0f32.to_bits() },
    ];
    let entries = suggested_entries(&found, 3).ok().unwrap();
    assert_eq!((entries[0].level, entries[1].level), (0, 1));
    let lines = lines_for(&entries);
    assert_eq!(lines, vec![(0, "One".to_string(), 1), (1, "Two".to_string(), 2)]);
}

fn titles(v: &[Entry]) -> Vec<(usize, &str, usize)> {
    v.iter().map(|e| (e.level, e.title.as_str(), e.page)).collect()
}

#[test]
fn picks_choose_among_the_entries() {
    let all = || vec![entry(0, "A", 1), entry(0, "B", 2), entry(1, "C", 3)];
    let picked = apply_picks(all(), &Ok(Some(vec![(2, 0), (7, 0), (0, 1)])));
    assert_eq!(titles(&picked), [(0, "C", 3), (1, "A", 1)], "a pick that names no entry is dropped");
    for keep in [Ok(None), Ok(Some(vec![])), Err("no reply".to_string())] {
        assert_eq!(titles(&apply_picks(all(), &keep)), [(0, "A", 1), (0, "B", 2), (1, "C", 3)]);
    }
    assert!(apply_picks(all(), &Ok(Some(vec![(9, 0)]))).is_empty());
}

/// A backend that keeps every second heading.
struct Every;

impl Brain for Every {
    fn name(&self) -> String {
        "every".to_string()
    }

    fn digest(&mut self, _probe: &Probe) -> Result<DigestFields, String> {
        Err(String::new())
    }

    fn design_taxonomy(&mut self, _corpus: &Vec<Digest>, _cfg: &TaxonomyConfig) -> Result<Taxonomy, String> {
        Err(String::new())
    }

    fn file(&mut self, _digest: &Digest, _taxonomy: &Taxonomy) -> Result<Filing, String> {
        Err(String::new())
    }

    fn refine_headings(
        &mut self,
        lines: &Vec<(usize, String, usize)>,
        max_level: usize,
    ) -> Result<Option<Vec<(usize, usize)>>, String> {
        Ok(Some(lines.iter().filter(|l| l.0 % 2 == 0).map(|l| (l.0, max_level)).collect()))
    }
}

#[test]
fn a_backend_judges_the_headings() {
    let kept = refine_entries(&mut Every, vec![entry(0, "A", 1), entry(0, "B", 2), entry(1, "C", 3)], 2);
    assert_eq!(titles(&kept), [(2, "A", 1), (2, "C", 3)]);
}

const XML: &str = "<page number=\"1\">\n<fontspec id=\"0\" size=\"10\"/>\n<fontspec id=\"1\" size=\"24\"/>\n<text top=\"5\" left=\"1\" font=\"1\">Chapter One</text>\n<text top=\"20\" left=\"1\" font=\"0\">Body text that goes on for a good long while.</text>\n<text top=\"30\" left=\"1\" font=\"1\">Chapter Two</text>\n</page>";

const FLAT: &str = "<page number=\"1\">\n<fontspec id=\"0\" size=\"10\"/>\n<text top=\"20\" left=\"1\" font=\"0\">Body text alone.</text>\n</page>";

#[test]
fn a_layout_gives_an_index() {
    let mut nobody: Option<Every> = None;
    let found = index_from(XML, RATIO, 3, &mut nobody).unwrap();
    assert_eq!(titles(&found), [(0, "Chapter One", 1), (0, "Chapter Two", 1)]);
    assert!(index_from(FLAT, RATIO, 3, &mut nobody).is_none());
    let judged = index_from(XML, RATIO, 3, &mut Some(Every)).unwrap();
    assert_eq!(titles(&judged), [(3, "Chapter One", 1)]);
}

fn options(force: bool, dry_run: bool) -> IndexOptions {
    IndexOptions { min_pages: 5, min_ratio: 1.6f32.to_bits(), max_depth: 3, force, dry_run }
}

fn files(n: usize) -> Vec<String> {
    (0..n).map(|i| format!("{}.pdf", i)).collect()
}

#[test]
fn a_file_goes_through_every_step() {
    let mut brain: Option<Heuristic> = None;
    let mut run = Indexing::new(files(1), options(false, false));
    assert_eq!(run.task(), IndexTask::CountPages);
    assert_eq!(run.file().map(|f| f.as_str()), Some("0.pdf"));
    run.written(Ok(9));
    assert_eq!(run.task(), IndexTask::CountPages, "what was not asked changes nothing");
    run.counted(Some(5));
    assert_eq!(run.task(), IndexTask::Load);
    run.loaded(Ok(&Document::new()));
    assert_eq!(run.task(), IndexTask::ReadHeadings);
    run.read(Ok(XML), &mut brain);
    assert_eq!(run.task(), IndexTask::Write);
    assert_eq!(titles(run.entries()), [(0, "Chapter One", 1), (0, "Chapter Two", 1)]);
    run.written(Ok(2));
    assert_eq!(run.task(), IndexTask::Finished);
    assert!(run.file().is_none());
    let (indexed, bookmarks, skipped) = run.tally();
    assert_eq!((indexed, bookmarks, skipped.len()), (1, 2, 0));
}

#[test]
fn every_file_is_indexed_or_left_alone() {
    let mut brain: Option<Heuristic> = None;
    let mut locked = Document::new();
    let id = locked.add_object(Object::Dictionary(Dictionary::new()));
    locked.trailer.set("Encrypt", Object::Reference(id));
    let mut run = Indexing::new(files(6), options(false, false));
    run.counted(None);
    run.counted(Some(9));
    run.loaded(Err("broken".to_string()));
    run.counted(Some(9));
    run.loaded(Ok(&locked));
    run.counted(Some(9));
    run.loaded(Ok(&Document::new()));
    run.read(Err("running pdftohtml".to_string()), &mut brain);
    run.counted(Some(9));
    run.loaded(Ok(&Document::new()));
    run.read(Ok(FLAT), &mut brain);
    run.counted(Some(9));
    run.loaded(Ok(&Document::new()));
    run.read(Ok(XML), &mut brain);
    run.written(Ok(1));
    assert_eq!(run.task(), IndexTask::Finished);
    let (indexed, _, skipped) = run.tally();
    assert_eq!(indexed + skipped.len(), 6);
    let reasons: Vec<&str> = skipped.iter().map(|s| s.1.as_str()).collect();
    assert_eq!(
        reasons,
        [
            "shorter than the page minimum",
            "could not be read: broken",
            "encrypted; cannot be rewritten",
            "running pdftohtml",
            "no headings stand out from the body text",
        ]
    );
}

fn plan(n: usize) -> Plan {
    Plan {
        created: Timestamp { seconds: 0, nanos: 0 },
        source_root: "/in".to_string(),
        library_root: "/out".to_string(),
        mode: LinkMode::Copy,
        taxonomy: Taxonomy { leaves: vec![], notes: vec![] },
        assignments: (0..n)
            .map(|i| Assignment {
                hash: "h".to_string(),
                source: format!("/in/{}.pdf", i),
                dest: format!("A/{}.pdf", i),
                leaf: "A".to_string(),
                title: "t".to_string(),
                confidence: 0.9f32.to_bits(),
                reason: String::new(),
                digest: None,
            })
            .collect(),
        unfiled: vec![],
        duplicates: vec![],
    }
}

/// A backend that picks nothing that is there.
struct Nothing;

impl Brain for Nothing {
    fn name(&self) -> String {
        "nothing".to_string()
    }

    fn digest(&mut self, _probe: &Probe) -> Result<DigestFields, String> {
        Err(String::new())
    }

    fn design_taxonomy(&mut self, _corpus: &Vec<Digest>, _cfg: &TaxonomyConfig) -> Result<Taxonomy, String> {
        Err(String::new())
    }

    fn file(&mut self, _digest: &Digest, _taxonomy: &Taxonomy) -> Result<Filing, String> {
        Err(String::new())
    }

    fn refine_headings(
        &mut self,
        lines: &Vec<(usize, String, usize)>,
        _max_level: usize,
    ) -> Result<Option<Vec<(usize, usize)>>, String> {
        Ok(Some(vec![(lines.len(), 0)]))
    }
}

#[test]
fn only_sources_with_headings_get_an_index() {
    let cfg = BookmarksConfig::default();
    let plan = plan(4);
    let mut run = Preparing::new(&plan);
    let mut nobody: Option<Every> = None;
    assert_eq!(run.task(), PrepareTask::CountPages);
    run.counted(&plan, 10, Some(9));
    assert_eq!(run.at(), 1);
    run.counted(&plan, 10, Some(10));
    assert_eq!(run.task(), PrepareTask::ReadHeadings);
    run.read(&plan, &cfg, Ok(XML), &mut nobody);
    run.counted(&plan, 10, Some(10));
    run.read(&plan, &cfg, Err("no".to_string()), &mut nobody);
    run.counted(&plan, 10, Some(10));
    run.read(&plan, &cfg, Ok(XML), &mut Some(Nothing));
    assert_eq!(run.task(), PrepareTask::Finished);
    let outlines = run.finish();
    assert_eq!(outlines.len(), 1);
    assert_eq!(outlines.get("/in/1.pdf").map(|v| v.len()), Some(2));
}

#[test]
fn a_limit_keeps_the_first_files() {
    let found: Vec<String> = ["a", "b", "c"].iter().map(|s| s.to_string()).collect();
    assert_eq!(files_to_index(found.clone(), None, "/lib").unwrap(), found);
    assert_eq!(files_to_index(found.clone(), Some(2), "/lib").unwrap(), ["a", "b"]);
    assert_eq!(files_to_index(found.clone(), Some(9), "/lib").unwrap(), found);
    assert!(files_to_index(found, Some(0), "/lib").unwrap().is_empty());
    assert_eq!(
        files_to_index(vec![], Some(2), "/lib").unwrap_err(),
        "no PDFs under /lib; run `sorting-hat apply` first"
    );
}

#[test]
fn the_least_number_of_pages_may_be_asked_for() {
    let cfg = BookmarksConfig { min_pages: 12, min_ratio: 1.15f32.to_bits(), max_depth: 3, max_growth: 0.25f32.to_bits() };
    let opts = IndexOptions::of(&cfg, None, false, true);
    assert_eq!((opts.min_pages, opts.min_ratio, opts.max_depth), (12, 1.15f32.to_bits(), 3));
    assert_eq!((opts.force, opts.dry_run), (false, true));
    assert_eq!(IndexOptions::of(&cfg, Some(4), true, false).min_pages, 4);
}
