use sorting_hat::brain::heuristic::Heuristic;
use sorting_hat::brain::{Brain, DigestFields, Filing};
use sorting_hat::cache::Cache;
use sorting_hat::config::{Config, SystemsConfig, TaxonomyConfig};
use sorting_hat::pipeline::{
    assemble_plan, build_plan, check_found, contested, fallback_title, file_all, fold_near_duplicates,
    fold_thin_leaves, limit_docs, next_step, refresh_cache, settle_filing, spell_systems, split_cached,
    title_key, to_assignments, to_digest, Edition, Eyes, Next, Options, Reading, NOTHING_TO_PLAN, NO_NAME_LEFT,
    UNSORTED,
};
use sorting_hat::types::{Digest, Duplicate, LinkMode, Probe, SourceDoc, Taxonomy, Timestamp, Unfiled};

const NOW: Timestamp = Timestamp { seconds: 1_700_000_000, nanos: 0 };

/// The bit pattern of 0.45.
const LEAST: u32 = 0x3ee6_6666;

fn filing(folder: &str) -> (String, u32, String) {
    (folder.to_string(), 0.9f32.to_bits(), String::new())
}

fn taxonomy(leaves: &[&str]) -> Taxonomy {
    Taxonomy { leaves: leaves.iter().map(|s| s.to_string()).collect(), notes: vec![] }
}

fn digest(path: &str, title: &str) -> Digest {
    Digest {
        hash: path.to_string(),
        path: path.to_string(),
        title: title.to_string(),
        game_system: "x".to_string(),
        doc_type: "x".to_string(),
        setting: "x".to_string(),
        level_range: "x".to_string(),
        publisher: "x".to_string(),
        topics: vec![],
        summary: String::new(),
        confidence: 0.9f32.to_bits(),
        source: "test".to_string(),
    }
}

fn doc(path: &str) -> SourceDoc {
    SourceDoc { path: path.to_string(), hash: format!("h-{}", path), bytes: 1 }
}

fn fields(title: &str, confidence: f32) -> DigestFields {
    DigestFields {
        title: title.to_string(),
        game_system: "s".to_string(),
        doc_type: "d".to_string(),
        setting: "e".to_string(),
        level_range: "l".to_string(),
        publisher: "p".to_string(),
        topics: vec!["t".to_string()],
        summary: "m".to_string(),
        confidence: confidence.to_bits(),
    }
}

fn probe(scanned: bool) -> Probe {
    Probe {
        file_name: "x.pdf".to_string(),
        pdf_title: None,
        pdf_author: None,
        pdf_subject: None,
        pdf_creator: None,
        page_count: None,
        text: String::new(),
        scanned,
    }
}

/// A backend that always says the same.
struct Fixed {
    folder: Result<(String, u32), String>,
    digests: bool,
}

impl Brain for Fixed {
    fn name(&self) -> String {
        "fixed".to_string()
    }

    fn digest(&mut self, _probe: &Probe) -> Result<DigestFields, String> {
        if self.digests {
            Ok(fields("Said", 0.7))
        } else {
            Err("out of tokens".to_string())
        }
    }

    fn design_taxonomy(&mut self, _corpus: &Vec<Digest>, _cfg: &TaxonomyConfig) -> Result<Taxonomy, String> {
        Ok(taxonomy(&["A/B", "A/C"]))
    }

    fn file(&mut self, _digest: &Digest, _taxonomy: &Taxonomy) -> Result<Filing, String> {
        match &self.folder {
            Ok((folder, confidence)) => Ok(Filing {
                folder: folder.clone(),
                confidence: *confidence,
                reason: "because".to_string(),
            }),
            Err(why) => Err(why.clone()),
        }
    }

    fn refine_headings(
        &mut self,
        _lines: &Vec<(usize, String, usize)>,
        _max_level: usize,
    ) -> Result<Option<Vec<(usize, usize)>>, String> {
        Ok(None)
    }
}

fn fixed(folder: &str, confidence: f32) -> Fixed {
    Fixed { folder: Ok((folder.to_string(), confidence.to_bits())), digests: true }
}

fn edition(path: &str, title: &str, bytes: u64, pages: Option<usize>) -> Edition {
    Edition { digest: digest(path, title), bytes, pages }
}

#[test]
fn thin_leaves_fold_into_their_parent() {
    let tax = taxonomy(&["A/B/C", "A/B/D"]);
    let filings = vec![filing("A/B/C"), filing("A/B/D"), filing("A/B/D")];
    let (tax, filings) = fold_thin_leaves(tax, filings, 2);
    assert_eq!(filings[0].0, "A/B", "the single-document leaf folds up");
    assert_eq!(filings[1].0, "A/B/D", "the leaf that met the threshold stays");
    assert!(tax.leaves.contains(&"A/B".to_string()));
}

#[test]
fn unsorted_never_folds_away() {
    let tax = taxonomy(&[UNSORTED]);
    let (_, filings) = fold_thin_leaves(tax, vec![filing(UNSORTED)], 5);
    assert_eq!(filings[0].0, UNSORTED);
}

#[test]
fn top_level_leaves_have_no_parent_to_fold_into() {
    let tax = taxonomy(&["Solo"]);
    let (_, filings) = fold_thin_leaves(tax, vec![filing("Solo")], 5);
    assert_eq!(filings[0].0, "Solo");
}

#[test]
fn unknown_titles_fall_back_to_the_file_name() {
    // The original name is preserved verbatim, punctuation and all.
    assert_eq!(fallback_title("/a/PZO30102E.pdf"), "PZO30102E");
    assert_eq!(fallback_title("/a/some_map.name.pdf"), "some_map.name");
}

#[test]
fn title_key_ignores_punctuation_and_case() {
    assert_eq!(title_key("Ghosts of Saltmarsh"), title_key("ghosts  of saltmarsh"));
    assert_eq!(title_key("Skull & Shackles: Part 6"), "skull shackles part 6");
    assert_ne!(title_key("Volo's Guide"), title_key("Xanathar's Guide"));
}

#[test]
fn identical_titles_get_distinct_destinations() {
    let digests = vec![digest("a.pdf", "Same Title"), digest("b.pdf", "Same Title")];
    let filings = vec![filing("A"), filing("A")];
    let (out, left) = to_assignments(&digests, &filings);
    assert!(left.is_empty());
    assert_ne!(out[0].dest, out[1].dest);
    assert_eq!(out[0].dest, "A/Same Title (2).pdf");
    assert_eq!(out[1].dest, "A/Same Title.pdf");
}

#[test]
fn folding_tells_where_a_document_came_from() {
    let (tax, filings) = fold_thin_leaves(taxonomy(&["A/B"]), vec![filing("A/B")], 2);
    assert_eq!(filings[0].2, "; folded up from thin folder \"A/B\"");
    assert_eq!(filings[0].1, 0.9f32.to_bits());
    assert_eq!(tax.leaves, vec!["A".to_string()]);
    let (tax, filings) = fold_thin_leaves(taxonomy(&["A/B", "C"]), vec![filing("A/B")], 1);
    assert_eq!(filings[0].0, "A/B", "a threshold of one folds nothing");
    assert_eq!(tax.leaves.len(), 2);
}

#[test]
fn destinations_never_leave_the_library() {
    let digests = vec![digest("/in/a.PDF", "../../etc/passwd"), digest("/in/b.pdf", "../../etc/passwd")];
    let filings = vec![filing("/../x/./.."), filing("/../x/./..")];
    for a in to_assignments(&digests, &filings).0 {
        assert!(a.dest.starts_with("x/"), "{}", a.dest);
        assert_eq!(a.dest.split('/').count(), 2, "{}", a.dest);
        assert!(a.dest.ends_with(".pdf"));
    }
}

#[test]
fn an_extension_too_long_to_keep_costs_one_document() {
    let long = format!("a.{}", "x".repeat(200));
    let digests = vec![digest(&long, "T"), digest("b.pdf", "U")];
    let filings = || vec![filing("A"), filing("A")];
    let (out, left) = to_assignments(&digests, &filings());
    assert_eq!((out.len(), left.len()), (1, 1));
    let plan = assemble_plan(
        &Config::default(), NOW, LinkMode::Copy, &digests, taxonomy(&["A"]), filings(), vec![], vec![],
    );
    assert_eq!(plan.assignments[0].dest, "A/U.pdf");
    assert_eq!((plan.unfiled[0].path.as_str(), plan.unfiled[0].reason.as_str()), (long.as_str(), NO_NAME_LEFT));
}

#[test]
fn resaves_fold_into_the_largest_copy() {
    let editions = vec![
        edition("b/small.pdf", "The Work", 980, Some(10)),
        edition("a/big.pdf", "the work!", 1000, Some(10)),
        edition("c/other.pdf", "The Work", 990, Some(12)),
        edition("d/tiny.pdf", "The Work", 949, Some(10)),
        edition("e/alone.pdf", "Another", 5, None),
    ];
    let (kept, groups) = fold_near_duplicates(&editions, 0.05f32.to_bits());
    let paths: Vec<&str> = kept.iter().map(|d| d.path.as_str()).collect();
    assert_eq!(paths, ["a/big.pdf", "c/other.pdf", "d/tiny.pdf", "e/alone.pdf"]);
    assert_eq!(groups.len(), 1);
    assert_eq!(groups[0].kept, "a/big.pdf");
    assert_eq!(groups[0].hash, "a/big.pdf");
    assert_eq!(groups[0].others, vec!["b/small.pdf".to_string()]);
}

#[test]
fn every_copy_is_kept_or_listed() {
    let editions: Vec<Edition> =
        (0..9).map(|i| edition(&format!("{}.pdf", i), "T", 1000 + i * 30, Some((i % 2) as usize))).collect();
    let (kept, groups) = fold_near_duplicates(&editions, 0.1f32.to_bits());
    let listed: usize = groups.iter().map(|g| g.others.len()).sum();
    assert_eq!(kept.len() + listed, 9);
}

#[test]
fn the_tolerance_is_a_share_of_the_larger_copy() {
    let at = |bytes: u64| vec![edition("a.pdf", "T", 1000, None), edition("b.pdf", "T", bytes, None)];
    assert_eq!(fold_near_duplicates(&at(950), 0.05f32.to_bits()).0.len(), 1);
    assert_eq!(fold_near_duplicates(&at(949), 0.05f32.to_bits()).0.len(), 2);
    let empty = vec![edition("a.pdf", "T", 0, None), edition("b.pdf", "T", 0, None)];
    assert_eq!(fold_near_duplicates(&empty, 0.0f32.to_bits()).0.len(), 1);
}

#[test]
fn only_shared_titles_are_contested() {
    let v = vec![digest("a", "One"), digest("b", "Two"), digest("c", "ONE!")];
    assert_eq!(contested(&v), vec![true, false, true]);
}

#[test]
fn doubtful_filings_land_in_unsorted() {
    let choice = |confidence: f32| Ok(Filing { folder: "A \"x\"".to_string(), confidence: confidence.to_bits(), reason: "r".to_string() });
    assert_eq!(settle_filing(choice(0.45), LEAST), ("A \"x\"".to_string(), LEAST, "r".to_string()));
    assert_eq!(
        settle_filing(choice(0.449), LEAST),
        (UNSORTED.to_string(), 0.449f32.to_bits(), "low confidence for \"A \\\"x\\\"\": r".to_string())
    );
    assert_eq!(
        settle_filing(Err("no reply".to_string()), LEAST),
        (UNSORTED.to_string(), 0, "filing failed: no reply".to_string())
    );
}

#[test]
fn every_document_is_filed_somewhere() {
    let digests = vec![digest("a", "One"), digest("b", "Two")];
    let sure = file_all(&mut fixed("A/B", 0.8), &taxonomy(&["A/B"]), &digests, LEAST);
    assert_eq!(sure.len(), 2);
    assert_eq!(sure[1].0, "A/B");
    let mut failing = Fixed { folder: Err("gone".to_string()), digests: true };
    let lost = file_all(&mut failing, &taxonomy(&["A/B"]), &digests, LEAST);
    assert_eq!(lost[0], (UNSORTED.to_string(), 0, "filing failed: gone".to_string()));
}

#[test]
fn digests_take_the_file_name_when_nothing_was_read() {
    let d = to_digest(&doc("/in/PZO1.pdf"), fields("UNKNOWN", 5.0), "m".to_string());
    assert_eq!(d.title, "PZO1");
    assert_eq!(d.confidence, 1.0f32.to_bits());
    assert_eq!(d.hash, "h-/in/PZO1.pdf");
    assert_eq!(d.source, "m");
    assert_eq!(to_digest(&doc("x.pdf"), fields("Named", 0.3), "m".to_string()).title, "Named");
    assert_eq!(fallback_title("/"), "Untitled");
}

#[test]
fn only_pictures_are_looked_at() {
    assert!(matches!(next_step(&probe(true), true), Next::Look));
    assert!(matches!(next_step(&probe(true), false), Next::Describe));
    assert!(matches!(next_step(&probe(false), true), Next::Describe));
}

#[test]
fn reading_keeps_account_of_every_document() {
    let mut reading = Reading::new(vec![digest("old", "Old")]);
    reading.unreadable(&doc("bad.pdf"), "extracting bad.pdf: broken");
    let seen = reading.describe(&mut fixed("A", 0.001), &doc("a.pdf"), &probe(true), Some((fields("Seen", 0.6), "eyes".to_string())));
    assert_eq!(seen.unwrap().source, "eyes");
    let said = reading.describe(&mut fixed("A", 0.001), &doc("b.pdf"), &probe(false), None).unwrap();
    assert_eq!((said.title.as_str(), said.source.as_str()), ("Said", "fixed"));
    let mut dumb = Fixed { folder: Err(String::new()), digests: false };
    assert!(reading.describe(&mut dumb, &doc("c.pdf"), &probe(false), None).is_none());
    let titles: Vec<&str> = reading.digests.iter().map(|d| d.title.as_str()).collect();
    assert_eq!(titles, ["Old", "Seen", "Said"]);
    assert_eq!(reading.unfiled.len(), 2);
    assert_eq!(reading.unfiled[0].reason, "extracting bad.pdf: broken");
    assert_eq!(reading.unfiled[1].reason, "could not be described: out of tokens");
}

#[test]
fn cached_digests_follow_their_files() {
    let mut cached = digest("old/place.pdf", "Known");
    cached.hash = "h-new/place.pdf".to_string();
    let cache = Cache::open(&vec![cached]);
    let (digests, pending) = split_cached(&cache, &vec![doc("new/place.pdf"), doc("fresh.pdf")]);
    assert_eq!(digests.len(), 1);
    assert_eq!(digests[0].path, "new/place.pdf");
    assert_eq!(digests[0].title, "Known");
    assert_eq!(pending.len(), 1);
    assert_eq!(pending[0].path, "fresh.pdf");
}

#[test]
fn options_say_what_is_read_again() {
    let opts = |rescan, below, unknown| Options {
        mode: LinkMode::Copy,
        rescan,
        redigest_below: below,
        redigest_unknown: unknown,
        limit: None,
    };
    let fresh = || {
        let mut low = digest("low", "Low");
        low.confidence = 0.1f32.to_bits();
        Cache::open(&vec![low, digest("none", "unknown"), digest("good", "Good")])
    };
    let mut cache = fresh();
    assert!(!refresh_cache(&mut cache, &opts(false, None, false)));
    assert_eq!(cache.live().len(), 3);
    assert!(refresh_cache(&mut cache, &opts(false, Some(0.5f32.to_bits()), false)));
    assert_eq!(cache.live().len(), 2);
    assert!(refresh_cache(&mut cache, &opts(false, None, true)));
    assert_eq!(cache.live().len(), 1);
    assert!(refresh_cache(&mut cache, &opts(true, None, false)));
    assert!(cache.live().is_empty());
}

#[test]
fn a_limit_keeps_the_first_documents() {
    let docs = || vec![doc("a"), doc("b"), doc("c")];
    assert_eq!(limit_docs(docs(), Some(2)).len(), 2);
    assert_eq!(limit_docs(docs(), Some(2))[1].path, "b");
    assert_eq!(limit_docs(docs(), Some(9)).len(), 3);
    assert_eq!(limit_docs(docs(), None).len(), 3);
}

#[test]
fn systems_go_by_one_name() {
    let mut a = digest("a", "A");
    a.game_system = " D&D 5th Edition".to_string();
    let mut b = digest("b", "B");
    b.game_system = "HouseRules".to_string();
    let mut cfg = SystemsConfig::default();
    cfg.aliases.insert("houserules".to_string(), "Our Game".to_string());
    let spelled = spell_systems(&vec![a, b], &cfg);
    assert_eq!(spelled[0].game_system, "D&D 5e");
    assert_eq!(spelled[1].game_system, "Our Game");
}

#[test]
fn nothing_found_is_an_error() {
    assert_eq!(check_found(0, "/in").unwrap_err(), "no PDFs found under /in");
    assert!(check_found(1, "/in").is_ok());
    let r = build_plan(&Config::default(), &mut Heuristic, NOW, LinkMode::Copy, &vec![], vec![], vec![]);
    assert_eq!(r.err().unwrap(), NOTHING_TO_PLAN);
}

#[test]
fn a_plan_covers_every_document() {
    let mut cfg = Config::default();
    cfg.source = "/in".to_string();
    cfg.library = "/out".to_string();
    let editions = vec![
        edition("/in/a.pdf", "One", 100, Some(3)),
        edition("/in/b.pdf", "One", 99, Some(3)),
        edition("/in/c.pdf", "Two", 50, None),
        edition("/in/d.pdf", "Three", 50, None),
    ];
    let plan = build_plan(&cfg, &mut fixed("A/B", 0.8), NOW, LinkMode::Symlink, &editions, vec![], vec![]).ok().unwrap();
    assert_eq!(plan.created.seconds, 1_700_000_000);
    assert_eq!((plan.source_root.as_str(), plan.library_root.as_str()), ("/in", "/out"));
    assert_eq!(plan.mode, LinkMode::Symlink);
    let dests: Vec<&str> = plan.assignments.iter().map(|a| a.dest.as_str()).collect();
    assert_eq!(dests, ["A/B/One.pdf", "A/B/Three.pdf", "A/B/Two.pdf"]);
    assert_eq!(plan.duplicates.len(), 1);
    assert_eq!(plan.duplicates[0].others, vec!["/in/b.pdf".to_string()]);
    assert_eq!(plan.taxonomy.leaves.len(), 2, "nothing folds, so the tree stays as designed");
    assert!(plan.assignments.iter().all(|a| a.digest.is_some()));
}

#[test]
fn a_plan_lists_every_file_once() {
    let mut cfg = Config::default();
    cfg.source = "/in".to_string();
    cfg.library = "/out".to_string();
    let editions = vec![
        edition("/in/a.pdf", "One", 100, Some(3)),
        edition("/in/b.pdf", "One", 99, Some(3)),
        edition("/in/c.pdf", "Two", 50, None),
    ];
    let unfiled = vec![Unfiled { path: "/in/d.pdf".to_string(), reason: "torn".to_string() }];
    let exact = vec![Duplicate {
        hash: "h".to_string(),
        kept: "/in/c.pdf".to_string(),
        others: vec!["/in/e.pdf".to_string()],
    }];
    let plan = build_plan(&cfg, &mut fixed("A", 0.8), NOW, LinkMode::Copy, &editions, unfiled, exact).ok().unwrap();
    let mut listed: Vec<&str> = plan.assignments.iter().map(|a| a.source.as_str()).collect();
    listed.extend(plan.unfiled.iter().map(|u| u.path.as_str()));
    for group in &plan.duplicates {
        listed.extend(group.others.iter().map(|p| p.as_str()));
    }
    listed.sort();
    assert_eq!(listed, ["/in/a.pdf", "/in/b.pdf", "/in/c.pdf", "/in/d.pdf", "/in/e.pdf"]);
}

#[test]
fn a_doubtful_plan_is_all_unsorted() {
    let mut cfg = Config::default();
    cfg.dedupe.near_duplicates = false;
    let editions = vec![edition("a.pdf", "One", 1, None), edition("b.pdf", "One", 1, None)];
    let plan = build_plan(&cfg, &mut fixed("A/B", 0.01), NOW, LinkMode::Copy, &editions, vec![], vec![]).ok().unwrap();
    assert_eq!(plan.assignments.len(), 2, "near duplicates are only folded if that is asked for");
    assert!(plan.assignments.iter().all(|a| a.leaf == UNSORTED && a.confidence == 0.01f32.to_bits()));
    assert_ne!(plan.assignments[0].dest, plan.assignments[1].dest);
}

#[test]
fn the_rules_can_plan_a_library() {
    let mut editions = Vec::new();
    for i in 0..4 {
        let mut e = edition(&format!("/in/{}.pdf", i), &format!("Adventure {}", i), 10, None);
        e.digest.game_system = "D&D 5e".to_string();
        e.digest.doc_type = "adventure".to_string();
        editions.push(e);
    }
    let plan = build_plan(&Config::default(), &mut Heuristic, NOW, LinkMode::Copy, &editions, vec![], vec![]).ok().unwrap();
    assert_eq!(plan.assignments.len(), 4);
    assert_eq!(plan.assignments[0].leaf, "D&D 5e/Adventure");
    assert_eq!(plan.assignments[0].dest, "D&D 5e/Adventure/Adventure 0.pdf");
}

/// Eyes that see one title, or nothing.
struct Seeing(Option<String>);

impl Eyes for Seeing {
    fn name(&self) -> String {
        "eyes".to_string()
    }

    fn describe(&mut self, image: &str, _probe: &Probe) -> Result<DigestFields, String> {
        match &self.0 {
            Some(title) => Ok(fields(&format!("{} in {}", title, image), 0.9)),
            None => Err("blind".to_string()),
        }
    }
}

#[test]
fn pictures_are_seen_and_the_rest_is_described() {
    let mut reading = Reading::new(vec![]);
    let mut brain = fixed("A", 0.001);
    let mut eyes = Some(Seeing(Some("Map".to_string())));
    let seen = reading.read(&mut brain, &mut eyes, &doc("a.pdf"), &probe(true), Some("p.png")).unwrap();
    assert_eq!((seen.title.as_str(), seen.source.as_str()), ("Map in p.png", "eyes"));
    let text = reading.read(&mut brain, &mut eyes, &doc("b.pdf"), &probe(false), Some("p.png")).unwrap();
    assert_eq!(text.source, "fixed", "a document with text is not looked at");
    let unrendered = reading.read(&mut brain, &mut eyes, &doc("c.pdf"), &probe(true), None).unwrap();
    assert_eq!(unrendered.source, "fixed");
    let blind = reading.read(&mut brain, &mut Some(Seeing(None)), &doc("d.pdf"), &probe(true), Some("p.png")).unwrap();
    assert_eq!(blind.source, "fixed", "what was not seen is described");
    let mut none: Option<Seeing> = None;
    assert_eq!(reading.read(&mut brain, &mut none, &doc("e.pdf"), &probe(true), Some("p.png")).unwrap().source, "fixed");
    assert_eq!(reading.digests.len() + reading.unfiled.len(), 5);
}
