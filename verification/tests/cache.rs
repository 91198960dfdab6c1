use sorting_hat::cache::{log_addition, log_lines, log_of, Cache};
use sorting_hat::types::Digest;

fn digest(hash: &str, title: &str, confidence: f32) -> Digest {
    Digest {
        hash: hash.to_string(),
        path: format!("{}.pdf", hash),
        title: title.to_string(),
        game_system: "x".to_string(),
        doc_type: "x".to_string(),
        setting: "x".to_string(),
        level_range: "x".to_string(),
        publisher: "x".to_string(),
        topics: vec![],
        summary: String::new(),
        confidence: confidence.to_bits(),
        source: "test".to_string(),
    }
}

#[test]
fn a_later_entry_supersedes_an_earlier_one() {
    let cache = Cache::open(&vec![digest("a", "Old", 0.1), digest("b", "B", 0.2), digest("a", "New", 0.3)]);
    assert_eq!(cache.get("a").map(|d| d.title.as_str()), Some("New"));
    assert_eq!(cache.get("b").map(|d| d.confidence), Some(0.2f32.to_bits()));
    assert!(cache.get("c").is_none());
    assert_eq!(cache.live().len(), 2);
}

#[test]
fn what_is_put_can_be_got_again() {
    let mut cache = Cache::open(&vec![]);
    cache.put(digest("a", "A", 0.5));
    cache.put(digest("b", "B", 0.5));
    assert_eq!(cache.get("a").map(|d| d.title.as_str()), Some("A"));
    cache.put(digest("a", "A2", 0.5));
    assert_eq!(cache.get("a").map(|d| d.title.as_str()), Some("A2"));
    assert_eq!(cache.get("b").map(|d| d.title.as_str()), Some("B"));
}

#[test]
fn unsure_entries_are_dropped() {
    let mut cache = Cache::open(&vec![digest("a", "A", 0.449), digest("b", "B", 0.45), digest("c", "C", 0.9)]);
    assert_eq!(cache.drop_below(0.45f32.to_bits()), 1);
    assert!(cache.get("a").is_none());
    assert!(cache.get("b").is_some());
    assert_eq!(cache.drop_below(0.45f32.to_bits()), 0);
}

#[test]
fn unnamed_entries_are_dropped() {
    let mut cache = Cache::open(&vec![digest("a", "Unknown", 0.9), digest("b", "B", 0.9), digest("c", "  ", 0.9)]);
    assert_eq!(cache.drop_unnamed(), 2);
    assert_eq!(cache.live().len(), 1);
    assert!(cache.get("b").is_some());
}

#[test]
fn clearing_drops_everything() {
    let mut cache = Cache::open(&vec![digest("a", "A", 0.9)]);
    cache.clear();
    assert!(cache.get("a").is_none());
    assert!(cache.live().is_empty());
}

#[test]
fn the_live_entries_reopen_as_the_cache() {
    let mut cache = Cache::open(&vec![digest("a", "A", 0.1), digest("b", "B", 0.8), digest("c", "C", 0.7)]);
    cache.drop_below(0.5f32.to_bits());
    let again = Cache::open(&cache.live());
    assert!(again.get("a").is_none());
    assert_eq!(again.get("b").map(|d| d.title.as_str()), Some("B"));
    assert_eq!(again.get("c").map(|d| d.confidence), Some(0.7f32.to_bits()));
}

fn read_lines(log: &[u8]) -> Vec<String> {
    log_lines(log).iter().map(|line| String::from_utf8_lossy(line).into_owned()).collect()
}

#[test]
fn a_log_comes_apart_at_its_line_ends() {
    assert!(log_lines(b"").is_empty());
    assert_eq!(read_lines(b"one\ntwo\n"), ["one", "two"]);
    assert_eq!(read_lines(b"one\n\ntwo"), ["one", "", "two"]);
    assert_eq!(read_lines(b"\n"), [""]);
    assert_eq!(log_of(&vec![b"one".to_vec(), b"two".to_vec()]), b"one\ntwo\n");
    assert_eq!(log_lines(&log_of(&vec![b"one".to_vec(), vec![], b"two".to_vec()])).len(), 3);
}

#[test]
fn what_is_put_is_found_behind_a_cut_line() {
    for (log, before) in [(&b""[..], 0), (b"{1}\n", 1), (b"{1}\n{\"cut", 2), (b"{1}\n{\"\xc3", 2)] {
        let mut log = log.to_vec();
        let addition = log_addition(log.last().copied(), b"{2}");
        log.extend(addition);
        let lines = log_lines(&log);
        assert_eq!(lines.len(), before + 1);
        assert_eq!(lines[before], b"{2}");
        assert_eq!(log.last(), Some(&10));
    }
    assert_eq!(log_addition(Some(b'x'), b"{}"), b"\n{}\n");
    assert_eq!(log_addition(Some(10), b"{}"), b"{}\n");
    assert_eq!(log_addition(None, b"{}"), b"{}\n");
}
