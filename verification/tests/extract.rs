use lopdf::{Dictionary, Document, Object};
use sorting_hat::config::ExtractConfig;
use sorting_hat::extract::{condense, count_meaningful, probe, read_info, read_info_lopdf, render_prefix};

#[test]
fn condense_collapses_and_truncates() {
    assert_eq!(condense("  a \n\n b\tc  ", 100), "a b c");
    assert_eq!(condense("abcdef", 3), "abc");
    assert_eq!(condense("", 10), "");
}

#[test]
fn whitespace_does_not_count_towards_the_scan_threshold() {
    // 30 letters separated by spaces: 59 characters, but only 30 meaningful.
    let text: String = std::iter::repeat("a ").take(30).collect();
    let meaningful = count_meaningful(&text);
    assert_eq!(meaningful, 30);
    assert!(meaningful < text.len(), "spaces must not pad the count");
}

#[test]
fn condense_respects_char_boundaries() {
    // Truncating by bytes would split these; by chars it must not.
    assert_eq!(condense("émé", 2), "ém");
}

#[test]
fn condense_drops_control_characters() {
    assert_eq!(condense("a\u{0}b\u{7}", 10), "ab");
    assert_eq!(condense("a \u{1} b", 10), "a b");
}

#[test]
fn a_cut_never_ends_in_a_blank() {
    assert_eq!(condense("ab cd", 3), "ab");
    assert_eq!(condense("ab cd", 4), "ab c");
    assert_eq!(condense("ab cd", 2), "ab");
    assert_eq!(condense("ab", 0), "");
}

#[test]
fn info_lines_are_read() {
    let info = read_info(
        "Title:          Rise of the Runelords: Anniversary\nAuthor:\nSubject:  \nCreator:  Adobe InDesign\nPages:          424\nnonsense\n",
    );
    assert_eq!(info.title.as_deref(), Some("Rise of the Runelords: Anniversary"));
    assert_eq!(info.author, None);
    assert_eq!(info.subject, None);
    assert_eq!(info.creator.as_deref(), Some("Adobe InDesign"));
    assert_eq!(info.pages, Some(424));
}

#[test]
fn page_counts_fill_a_machine_word_and_no_more() {
    assert_eq!(read_info("Pages: +7").pages, Some(7));
    assert_eq!(read_info("Pages: 18446744073709551615").pages, Some(usize::MAX));
    assert_eq!(read_info("Pages: 18446744073709551616").pages, None);
    assert_eq!(read_info("Pages: 12\nPages: many").pages, None);
}

#[test]
fn documents_say_what_they_are() {
    let mut doc = Document::with_version("1.5");
    let mut info = Dictionary::new();
    info.set("Title", Object::string_literal("Bestiary"));
    info.set("Author", Object::Integer(3));
    info.set("Creator", Object::String(vec![b'X', 0xff], lopdf::StringFormat::Literal));
    let id = doc.add_object(Object::Dictionary(info));
    doc.trailer.set("Info", Object::Reference(id));
    let said = read_info_lopdf(&doc);
    assert_eq!(said.title.as_deref(), Some("Bestiary"));
    assert_eq!(said.author, None);
    assert_eq!(said.subject, None);
    assert_eq!(said.creator.as_deref(), Some("X\u{fffd}"));
    assert_eq!(said.pages, Some(0));
    let bare = read_info_lopdf(&Document::with_version("1.5"));
    assert_eq!(bare.title, None);
    assert_eq!(bare.pages, Some(0));
}

#[test]
fn a_probe_holds_what_was_found() {
    let cfg = ExtractConfig { pages: 2, max_chars: 12, scanned_threshold: 5, timeout_secs: 1 };
    let info = read_info("Title: T\nPages: 3");
    let found = probe("/in/Some File.pdf", info, "  many   words here ", &cfg);
    assert_eq!(found.file_name, "Some File.pdf");
    assert_eq!(found.pdf_title.as_deref(), Some("T"));
    assert_eq!(found.page_count, Some(3));
    assert_eq!(found.text, "many words h");
    assert!(!found.scanned);
    let picture = probe("/", read_info(""), "a b c d", &cfg);
    assert_eq!(picture.file_name, "");
    assert!(picture.scanned, "four characters carry meaning, and five are asked for");
}

#[test]
fn renders_are_named_after_their_source() {
    let hex = blake3::hash(b"/in/a.pdf").to_hex().to_string();
    assert_eq!(render_prefix("/in/a.pdf", "tmp/renders"), format!("tmp/renders/{}", &hex[..16]));
    assert_ne!(render_prefix("/in/a.pdf", "r"), render_prefix("/in/b.pdf", "r"));
}

#[test]
fn a_scan_is_told_before_the_text_is_cut() {
    let cfg = ExtractConfig { pages: 2, max_chars: 3, scanned_threshold: 5, timeout_secs: 1 };
    let found = probe("/in/a.pdf", read_info(""), "many words here", &cfg);
    assert_eq!(found.text, "man");
    assert!(!found.scanned);
}
