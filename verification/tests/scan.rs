use sorting_hat::scan::{dedupe, fingerprint, head_len, is_pdf, needs_tail, sort_paths, walks_into, SAMPLE};
use sorting_hat::types::SourceDoc;

fn texts(v: &[&str]) -> Vec<String> {
    v.iter().map(|s| s.to_string()).collect()
}

fn doc(path: &str, hash: &str) -> SourceDoc {
    SourceDoc { path: path.to_string(), hash: hash.to_string(), bytes: 1 }
}

#[test]
fn hidden_and_tool_directories_are_not_walked() {
    let none: Vec<String> = vec![];
    assert!(walks_into("books", 1, &None, &none));
    assert!(!walks_into(".hidden", 1, &None, &none));
    assert!(walks_into(".", 0, &None, &none), "the root itself may be hidden");
    for name in [".git", ".svn", "target", "node_modules", ".venv", "__pycache__"] {
        assert!(!walks_into(name, 0, &None, &none), "{}", name);
    }
    assert!(walks_into("targets", 3, &None, &none));
}

#[test]
fn excluded_directories_are_not_walked() {
    let excluded = texts(&["/lib/out"]);
    assert!(!walks_into("out", 1, &Some("/lib/out".to_string()), &excluded));
    assert!(!walks_into("deep", 2, &Some("/lib/out/deep".to_string()), &excluded));
    assert!(walks_into("output", 1, &Some("/lib/output".to_string()), &excluded));
    assert!(walks_into("out", 1, &None, &excluded));
}

#[test]
fn pdfs_are_told_by_their_extension() {
    assert!(is_pdf("/a/b.pdf"));
    assert!(is_pdf("b.PdF"));
    assert!(!is_pdf("pdf"));
    assert!(!is_pdf(".pdf"));
    assert!(!is_pdf("a.pdf.txt"));
}

#[test]
fn paths_sort_component_by_component() {
    let sorted = sort_paths(texts(&["b/a.pdf", "a-b/c.pdf", "a/z.pdf", "a/b/c.pdf"]));
    assert_eq!(sorted, texts(&["a/b/c.pdf", "a/z.pdf", "a-b/c.pdf", "b/a.pdf"]));
}

#[test]
fn fingerprints_cover_length_head_and_tail() {
    let made = fingerprint("x.pdf", 3, b"abc", b"");
    let mut hasher = blake3::Hasher::new();
    hasher.update(&3u64.to_le_bytes());
    hasher.update(b"abc");
    assert_eq!(made.hash, hasher.finalize().to_hex().to_string());
    assert_eq!(made.path, "x.pdf");
    assert_eq!(made.bytes, 3);

    let long = SAMPLE * 2 + 1;
    let head = vec![1u8; SAMPLE as usize];
    let tail = vec![2u8; SAMPLE as usize];
    let mut hasher = blake3::Hasher::new();
    hasher.update(&long.to_le_bytes());
    hasher.update(&head);
    hasher.update(&tail);
    assert_eq!(fingerprint("y.pdf", long, &head, &tail).hash, hasher.finalize().to_hex().to_string());
}

#[test]
fn samples_have_a_size() {
    assert_eq!(head_len(10), 10);
    assert_eq!(head_len(SAMPLE), 262_144);
    assert_eq!(head_len(u64::MAX), 262_144);
    assert!(!needs_tail(SAMPLE * 2));
    assert!(needs_tail(SAMPLE * 2 + 1));
}

#[test]
fn the_shallowest_copy_is_kept() {
    let (unique, duplicates) = dedupe(vec![
        doc("z/deep/er/copy.pdf", "h1"),
        doc("other.pdf", "h2"),
        doc("z/copy.pdf", "h1"),
        doc("a/copy.pdf", "h1"),
    ]);
    let kept: Vec<&str> = unique.iter().map(|d| d.path.as_str()).collect();
    assert_eq!(kept, ["a/copy.pdf", "other.pdf"]);
    assert_eq!(duplicates.len(), 1);
    assert_eq!(duplicates[0].hash, "h1");
    assert_eq!(duplicates[0].kept, "a/copy.pdf");
    assert_eq!(duplicates[0].others, texts(&["z/copy.pdf", "z/deep/er/copy.pdf"]));
}

#[test]
fn kept_documents_have_different_hashes() {
    let docs: Vec<SourceDoc> = (0..12).map(|i| doc(&format!("d{}.pdf", i), &format!("h{}", i % 5))).collect();
    let (unique, duplicates) = dedupe(docs);
    assert_eq!(unique.len(), 5);
    for i in 0..unique.len() {
        for j in 0..i {
            assert_ne!(unique[i].hash, unique[j].hash);
        }
    }
    let listed: usize = duplicates.iter().map(|d| d.others.len()).sum();
    assert_eq!(unique.len() + listed, 12, "every document is kept or listed");
}

#[test]
fn the_order_found_changes_nothing() {
    let docs = [doc("b/x.pdf", "h1"), doc("a/x.pdf", "h1"), doc("c.pdf", "h2"), doc("d/e/f.pdf", "h2")];
    let orders = [[0, 1, 2, 3], [3, 2, 1, 0], [2, 0, 3, 1], [1, 3, 0, 2]];
    for order in orders {
        let (unique, duplicates) = dedupe(order.iter().map(|i| docs[*i].clone()).collect());
        let kept: Vec<&str> = unique.iter().map(|d| d.path.as_str()).collect();
        assert_eq!(kept, ["a/x.pdf", "c.pdf"]);
        let groups: Vec<&str> = duplicates.iter().map(|d| d.kept.as_str()).collect();
        assert_eq!(groups, ["a/x.pdf", "c.pdf"]);
        assert_eq!(duplicates[0].others, texts(&["b/x.pdf"]));
        assert_eq!(duplicates[1].others, texts(&["d/e/f.pdf"]));
    }
}
