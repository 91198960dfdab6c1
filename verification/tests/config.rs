use sorting_hat::config::Config;
use sorting_hat::table::TextMap;

#[test]
fn defaults_are_what_nobody_has_touched() {
    let cfg = Config::default();
    assert_eq!((cfg.source.as_str(), cfg.work_dir.as_str(), cfg.library.as_str()), (".", "tmp", "tmp/library"));
    assert_eq!((cfg.extract.pages, cfg.extract.max_chars, cfg.extract.scanned_threshold), (12, 6000, 800));
    assert_eq!(cfg.extract.timeout_secs, 60);
    assert_eq!((cfg.model.gpu_layers, cfg.model.context, cfg.model.max_tokens, cfg.model.seed), (999, 8192, 512, 1337));
    assert_eq!(cfg.model.template, "chatml");
    assert!(cfg.vision.enabled);
    assert_eq!((cfg.vision.max_pixels, cfg.vision.image_max_tokens), (2100, 2048));
    assert_eq!((cfg.taxonomy.max_leaves, cfg.taxonomy.max_depth, cfg.taxonomy.min_docs_per_leaf), (40, 3, 3));
    assert_eq!(cfg.taxonomy.min_confidence, 0.45f32.to_bits());
    assert!(cfg.dedupe.near_duplicates);
    assert_eq!(cfg.dedupe.size_tolerance, 0.05f32.to_bits());
    assert_eq!((cfg.bookmarks.min_pages, cfg.bookmarks.min_ratio), (10, 1.6f32.to_bits()));
    assert_eq!((cfg.bookmarks.max_depth, cfg.bookmarks.max_growth), (4, 0.25f32.to_bits()));
    assert_eq!(cfg.systems.aliases.len(), 0);
}

#[test]
fn everything_lives_in_the_work_directory() {
    let mut cfg = Config::default();
    cfg.work_dir = "/work".to_string();
    assert_eq!(cfg.cache_dir(), "/work/cache");
    assert_eq!(cfg.plan_path(), "/work/plan.json");
    assert_eq!(cfg.render_dir(), "/work/renders");
}

#[test]
fn tables_keep_one_value_per_key() {
    let mut table: TextMap<u32> = TextMap::new();
    table.insert("a".to_string(), 1);
    table.insert("b".to_string(), 2);
    table.insert("a".to_string(), 3);
    assert_eq!(table.len(), 2);
    assert_eq!(table.get("a"), Some(&3));
    assert_eq!(table.get("b"), Some(&2));
    assert_eq!(table.get("c"), None);
    assert_eq!(table.key_at(0), "a");
    assert_eq!(table.value_at(1), &2);
}
