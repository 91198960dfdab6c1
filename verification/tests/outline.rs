use lopdf::{Dictionary, Document, Object};
use sorting_hat::outline::{
    apply_to_doc, drop_running_headers, dump, guard_size, has_outline, may_index, nest, parse, plausible_heading,
    tree, Candidate, Entry, Skip,
};

const XML: &str = r##"<pdf2xml>
<page number="1" height="800" width="600">
<fontspec id="0" size="14" family="Serif" color="#000000"/>
<fontspec id="1" size="36" family="Serif" color="#000000"/>
<text top="10" left="10" width="100" height="20" font="1">Chapter 1: Beginnings</text>
<text top="40" left="10" width="100" height="10" font="0">Body text that goes on and on and on for a while.</text>
<text top="60" left="10" width="100" height="10" font="0">More body text, comfortably the bulk of the page.</text>
</page>
<page number="2" height="800" width="600">
<text top="10" left="10" width="100" height="20" font="1">Chapter 2: <b>Endings</b></text>
<text top="40" left="10" width="100" height="10" font="0">Yet more ordinary body text down here.</text>
</page>
</pdf2xml>"##;

#[test]
fn finds_headings_by_type_size() {
    let found = parse(XML, 1.6f32.to_bits());
    assert_eq!(found.len(), 2, "{found:?}");
    assert_eq!(found[0].text, "Chapter 1: Beginnings");
    assert_eq!(found[0].page, 1);
    assert_eq!(found[1].page, 2);
}

#[test]
fn strips_nested_markup_from_a_heading() {
    let found = parse(XML, 1.6f32.to_bits());
    assert_eq!(found[1].text, "Chapter 2: Endings");
}

#[test]
fn body_size_is_decided_by_characters_not_run_count() {
    // Three tiny headings, one long paragraph: the paragraph is the body.
    let xml = r##"<pdf2xml><page number="1">
<fontspec id="0" size="10"/><fontspec id="1" size="30"/>
<text font="1">Aaa</text><text font="1">Bbb</text><text font="1">Ccc</text>
<text font="0">This single paragraph carries far more characters than the three short headings above it do.</text>
</page></pdf2xml>"##;
    let found = parse(xml, 1.6f32.to_bits());
    assert_eq!(found.len(), 3, "headings, not the paragraph: {found:?}");
}

#[test]
fn rejects_drop_caps_and_page_numbers() {
    assert!(!plausible_heading("A"));
    assert!(!plausible_heading("42"));
    assert!(!plausible_heading("1 2 3"));
    assert!(plausible_heading("Chapter 1: Beginnings"));
}

fn candidate(page: usize, size: f32, top: f32, text: &str) -> Candidate {
    Candidate { page, size: size.to_bits(), top: top.to_bits(), text: text.to_string() }
}

#[test]
fn drops_running_headers_repeated_across_facing_pages() {
    let repeated = vec![
        candidate(4, 30.0, 0.0, "Player's Handbook"),
        candidate(5, 30.0, 0.0, "Player's Handbook"),
        candidate(6, 30.0, 0.0, "Combat"),
    ];
    let v = drop_running_headers(&repeated);
    assert_eq!(v.len(), 2);
}

#[test]
fn restores_reading_order_within_a_page() {
    // The sidebar came first; the chapter title sits above it.
    let xml = r##"<pdf2xml><page number="1">
<fontspec id="0" size="10"/><fontspec id="1" size="30"/>
<text top="400" font="1">A Sidebar Aside</text>
<text top="50" font="1">Chapter One Begins</text>
<text font="0">Body text long enough to be the most common size on this page by far.</text>
</page></pdf2xml>"##;
    let found = parse(xml, 1.6f32.to_bits());
    assert_eq!(found[0].text, "Chapter One Begins", "higher on the page comes first");
    assert_eq!(found[1].text, "A Sidebar Aside");
}

#[test]
fn nesting_ranks_sizes_rather_than_trusting_points() {
    let c = vec![
        candidate(1, 45.0, 0.0, "Part One"),
        candidate(2, 36.0, 0.0, "Chapter One"),
        candidate(3, 36.0, 0.0, "Chapter Two"),
        candidate(4, 23.0, 0.0, "A Section"),
    ];
    let nested = nest(&c, 4);
    assert_eq!(nested[0].level, 0);
    assert_eq!(nested[1].level, 1);
    assert_eq!(nested[2].level, 1);
    assert_eq!(nested[3].level, 2);
}

#[test]
fn nesting_respects_the_depth_limit() {
    let c: Vec<Candidate> =
        (0..6).map(|i| candidate(1, 40.0 - i as f32, i as f32, &format!("H{i}"))).collect();
    let nested = nest(&c, 3);
    assert!(nested.iter().all(|e| e.level < 3), "{nested:?}");
    assert!(nest(&c, 0).iter().all(|e| e.level == 0));
}

#[test]
fn entities_and_fractions_are_read() {
    let xml = "<fontspec id=\"a\" size=\"10.5\"/><fontspec id=\"b\" size=\"20\"/><page number=\"7\">\
<text top=\"1\" font=\"b\">Cloak &amp; Dagger&#160;&lt;Part&gt;</text>\
<text top=\"2\" font=\"a\">Ordinary words that make up the body of this page.</text>\
<text top=\"3\" font=\"zz\">An unknown font</text>";
    let found = parse(xml, 1.6f32.to_bits());
    assert_eq!(found.len(), 1);
    assert_eq!(found[0].text, "Cloak & Dagger <Part>");
    assert_eq!(found[0].page, 7);
    assert_eq!(found[0].size, 20.0f32.to_bits());
    assert_eq!(found[0].top, 1.0f32.to_bits());
    assert_eq!(parse("", 1.6f32.to_bits()).len(), 0);
    assert_eq!(parse(xml, 2.0f32.to_bits()).len(), 0);
}

fn entry(level: usize, title: &str, page: usize) -> Entry {
    Entry { level, title: title.to_string(), page }
}

#[test]
fn a_dump_is_indented_by_level() {
    let v = vec![entry(0, "Part", 1), entry(2, "Section", 3)];
    assert_eq!(dump(&v), "2 candidates\nPart  ..... p1\n        Section  ..... p3\n");
}

#[test]
fn a_level_that_jumps_is_attached_to_what_is_open() {
    let v = vec![entry(2, "a", 1), entry(5, "b", 1), entry(1, "c", 1), entry(0, "d", 1)];
    let roots = tree(&v);
    assert_eq!(roots.len(), 2);
    assert_eq!(roots[0].title, "a");
    assert_eq!(roots[0].children.len(), 2);
    assert_eq!(roots[0].children[0].title, "b");
    assert_eq!(roots[0].children[1].title, "c");
    assert_eq!(roots[1].title, "d");
}

fn document(pages: usize) -> Document {
    let mut doc = Document::new();
    let pages_id = doc.new_object_id();
    let mut kids = Vec::new();
    for _ in 0..pages {
        let mut page = Dictionary::new();
        page.set("Type", Object::Name(b"Page".to_vec()));
        page.set("Parent", Object::Reference(pages_id));
        kids.push(Object::Reference(doc.add_object(Object::Dictionary(page))));
    }
    let mut list = Dictionary::new();
    list.set("Type", Object::Name(b"Pages".to_vec()));
    list.set("Count", Object::Integer(pages as i64));
    list.set("Kids", Object::Array(kids));
    doc.objects.insert(pages_id, Object::Dictionary(list));
    let mut catalog = Dictionary::new();
    catalog.set("Type", Object::Name(b"Catalog".to_vec()));
    catalog.set("Pages", Object::Reference(pages_id));
    let root = doc.add_object(Object::Dictionary(catalog));
    doc.trailer.set("Root", Object::Reference(root));
    doc
}

fn dict(doc: &Document, id: (u32, u16)) -> &Dictionary {
    doc.get_object(id).unwrap().as_dict().unwrap()
}

fn link(d: &Dictionary, key: &str) -> Option<(u32, u16)> {
    d.get(key.as_bytes()).ok().and_then(|o| o.as_reference().ok())
}

#[test]
fn a_written_tree_can_be_walked() {
    let mut doc = document(3);
    let page_ids: Vec<(u32, u16)> = doc.get_pages().into_values().collect();
    assert!(!has_outline(&doc));
    assert!(may_index(&doc, false).is_ok());
    let v = vec![
        entry(0, "One", 1),
        entry(1, "Sub", 2),
        entry(1, "Sub two", 2),
        entry(0, "Gone", 9),
        entry(0, "Two", 3),
    ];
    assert_eq!(apply_to_doc(&mut doc, &v).unwrap(), 4);
    assert!(has_outline(&doc));
    assert!(matches!(may_index(&doc, false), Err(Skip::AlreadyIndexed)));
    let catalog = doc.catalog().unwrap();
    assert_eq!(catalog.get(b"PageMode").unwrap().as_name().unwrap(), b"UseOutlines");
    let head = dict(&doc, link(catalog, "Outlines").unwrap());
    assert_eq!(head.get(b"Count").unwrap().as_i64().unwrap(), 4);
    let one_id = link(head, "First").unwrap();
    let one = dict(&doc, one_id);
    assert_eq!(one.get(b"Title").unwrap().as_str().unwrap(), b"One");
    assert_eq!(one.get(b"Count").unwrap().as_i64().unwrap(), -2);
    assert_eq!(link(one, "Prev"), None);
    let two_id = link(one, "Next").unwrap();
    assert_eq!(Some(two_id), link(head, "Last"));
    let two = dict(&doc, two_id);
    assert_eq!(two.get(b"Title").unwrap().as_str().unwrap(), b"Two");
    assert_eq!(link(two, "Prev"), Some(one_id));
    assert!(!two.has(b"First"));
    let sub = dict(&doc, link(one, "First").unwrap());
    assert_eq!(sub.get(b"Title").unwrap().as_str().unwrap(), b"Sub");
    assert_eq!(link(sub, "Parent"), Some(one_id));
    let dest = sub.get(b"Dest").unwrap().as_array().unwrap();
    assert_eq!(dest[0].as_reference().unwrap(), page_ids[1]);
    assert_eq!(dest[1].as_name().unwrap(), b"XYZ");
    assert_eq!(dest[2], Object::Null);
    assert_eq!(dest.len(), 5);
    assert_eq!(link(sub, "Next"), link(one, "Last"));
}

#[test]
fn documents_that_cannot_be_indexed_say_why() {
    let mut doc = document(1);
    assert!(matches!(apply_to_doc(&mut doc, &[]), Err(Skip::NoHeadings)));
    assert!(matches!(apply_to_doc(&mut doc, &[entry(0, "x", 2)]), Err(Skip::NoHeadings)));
    let mut empty = Document::new();
    match apply_to_doc(&mut empty, &[entry(0, "x", 1)]) {
        Err(Skip::Unreadable(why)) => assert_eq!(why, "no pages"),
        _ => panic!("an empty document has no pages"),
    }
    let mut full = document(1);
    full.max_id = u32::MAX;
    match apply_to_doc(&mut full, &[entry(0, "x", 1)]) {
        Err(Skip::Unreadable(why)) => assert_eq!(why, "too many objects"),
        _ => panic!("no number is left"),
    }
}

#[test]
fn an_encrypted_document_is_left_alone() {
    let mut doc = document(1);
    let id = doc.add_object(Object::Dictionary(Dictionary::new()));
    doc.trailer.set("Encrypt", Object::Reference(id));
    assert!(matches!(may_index(&doc, false), Err(Skip::Encrypted)));
}

#[test]
fn bloat_is_refused() {
    let mb = 1u64 << 20;
    assert!(guard_size(10 * mb, 12 * mb, 0.25f32.to_bits()).is_ok());
    match guard_size(10 * mb, 13 * mb, 0.25f32.to_bits()) {
        Err(skip) => assert_eq!(skip.message(), "rewriting grew it from 10485760 to 13631488 bytes"),
        Ok(()) => panic!("three megabytes is bloat"),
    }
    assert!(guard_size(10 * mb, 4 * mb, 0.25f32.to_bits()).is_err());
    assert!(guard_size(0, 4 * mb, 0.25f32.to_bits()).is_ok());
}

#[test]
fn every_skip_has_its_words() {
    assert_eq!(Skip::AlreadyIndexed.message(), "already has a bookmark tree");
    assert_eq!(Skip::Encrypted.message(), "encrypted; cannot be rewritten");
    assert_eq!(Skip::TooShort { pages: 3 }.message(), "shorter than the page minimum");
    assert_eq!(Skip::NoHeadings.message(), "no headings stand out from the body text");
    assert_eq!(Skip::Unreadable("x".to_string()).message(), "could not be read: x");
}

#[test]
fn an_index_is_rebuilt_only_when_forced() {
    let mut doc = document(2);
    assert_eq!(sorting_hat::outline::write(&mut doc, &[entry(0, "One", 1)], false).unwrap(), 1);
    assert!(matches!(sorting_hat::outline::write(&mut doc, &[entry(0, "Two", 2)], false), Err(Skip::AlreadyIndexed)));
    assert!(may_index(&doc, true).is_ok());
    assert_eq!(sorting_hat::outline::write(&mut doc, &[entry(0, "Two", 2), entry(0, "Three", 2)], true).unwrap(), 2);
    let head = dict(&doc, link(doc.catalog().unwrap(), "Outlines").unwrap());
    assert_eq!(dict(&doc, link(head, "First").unwrap()).get(b"Title").unwrap().as_str().unwrap(), b"Two");
    let id = doc.add_object(Object::Dictionary(Dictionary::new()));
    doc.trailer.set("Encrypt", Object::Reference(id));
    assert!(matches!(sorting_hat::outline::write(&mut doc, &[entry(0, "x", 1)], true), Err(Skip::Encrypted)));
}

#[test]
fn ties_between_sizes_go_to_the_larger() {
    let xml = r##"<pdf2xml><page number="1">
<fontspec id="0" size="10"/><fontspec id="1" size="30"/><fontspec id="2" size="-1"/>
<text font="0">Five words of body text</text><text font="1">Five words of head text</text>
</page></pdf2xml>"##;
    assert!(parse(xml, 1.6f32.to_bits()).is_empty(), "the larger size is the body");
    let below = xml.replace("font=\"1\"", "font=\"2\"");
    assert!(parse(&below, 1.6f32.to_bits()).is_empty(), "a size below zero wins a tie, and then nothing stands out");
}

#[test]
fn entities_are_decoded_once() {
    let xml = r##"<pdf2xml><page number="1">
<fontspec id="0" size="10"/><fontspec id="1" size="30"/>
<text font="1">Less &amp;lt; More &lt;&gt;&quot;&apos;&#160;End</text>
<text font="0">Body text long enough to be the most common size on this page by far.</text>
</page></pdf2xml>"##;
    assert_eq!(parse(xml, 1.6f32.to_bits())[0].text, "Less &lt; More <>\"' End");
}
