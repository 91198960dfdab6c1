use sorting_hat::naming::{
    file_name, is_unknown, sanitize_component, sanitize_folder, try_file_name, try_unique, unique,
};

#[test]
fn strips_separators_and_control_characters() {
    assert_eq!(sanitize_component("a/b:c\td"), "a b c d");
}

#[test]
fn never_yields_an_empty_component() {
    assert_eq!(sanitize_component("..."), "Untitled");
    assert_eq!(sanitize_component("   "), "Untitled");
}

#[test]
fn folder_paths_cannot_escape_the_library() {
    assert_eq!(sanitize_folder("../../etc"), "etc");
    assert_eq!(sanitize_folder("/a//b/"), "a/b");
    assert_eq!(sanitize_folder(""), "Unsorted");
}

#[test]
fn keeps_the_source_extension_once() {
    assert_eq!(file_name("Ghosts of Saltmarsh", "x.PDF"), "Ghosts of Saltmarsh.pdf");
    assert_eq!(file_name("Ghosts.pdf", "x.pdf"), "Ghosts.pdf");
}

#[test]
fn long_titles_stay_within_the_component_limit() {
    let name = file_name(&"ä".repeat(500), "x.pdf");
    assert!(name.len() <= 255, "{}", name.len());
}

#[test]
fn recognises_a_declined_title() {
    assert!(is_unknown("unknown"));
    assert!(is_unknown("  Unknown "));
    assert!(is_unknown(""));
    assert!(!is_unknown("Mytheos Dungeon"));
}

#[test]
fn collisions_get_numbered() {
    let mut taken: Vec<String> = Vec::new();
    let a = unique(&mut taken, "d/x.pdf");
    let b = unique(&mut taken, "d/x.pdf");
    let c = unique(&mut taken, "d/x.pdf");
    assert_eq!(a, "d/x.pdf");
    assert_eq!(b, "d/x (2).pdf");
    assert_eq!(c, "d/x (3).pdf");
    assert_eq!(try_unique(&mut taken, "d/x.pdf"), Some("d/x (4).pdf".to_string()));
}

#[test]
fn an_extension_that_does_not_fit_gives_no_name() {
    let long = format!("x.{}", "e".repeat(300));
    assert_eq!(try_file_name("Title", &long), None);
    assert_eq!(try_file_name("Title", "x"), Some("Title.pdf".to_string()));
}

#[test]
fn reserved_names_are_marked() {
    assert_eq!(sanitize_component("con"), "con_");
    assert_eq!(sanitize_component("Lpt9"), "Lpt9_");
    assert_eq!(sanitize_component("COM10"), "COM10");
    assert_eq!(sanitize_component("console"), "console");
}

#[test]
fn destinations_are_plain_names_in_their_folder() {
    for title in ["../../up", "/root", "..", "a\\b", "con", ".hidden.", "a/b.pdf"] {
        let name = file_name(title, "/in/x.PDF");
        assert!(!name.contains('/') && !name.contains('\\'), "{}", name);
        assert!(!name.starts_with('.') && name.ends_with(".pdf"), "{}", name);
        let dir = sanitize_folder("/../A/./B/..");
        assert_eq!(dir, "A/B");
        let mut taken = vec![format!("{}/{}", dir, name)];
        let dest = unique(&mut taken, &format!("{}/{}", dir, name));
        let steps: Vec<&str> = dest.split('/').collect();
        assert_eq!(steps.len(), 3);
        assert_eq!(&steps[..2], ["A", "B"]);
        assert!(steps[2].ends_with(" (2).pdf"));
    }
}

#[test]
fn one_path_spelled_twice_is_one_path() {
    let mut taken = vec!["d//x.pdf".to_string()];
    assert_eq!(unique(&mut taken, "d/x.pdf"), "d/x (2).pdf");
}

#[test]
fn an_extension_is_cut_from_the_title_itself() {
    assert_eq!(file_name("Ghosts.PDF", "x.pdf"), "Ghosts.pdf");
    assert_eq!(file_name(".pdf", "x.pdf"), "pdf.pdf");
    assert_eq!(file_name("a.b.pdf", "x.pdf"), "a.b.pdf");
    // Letters whose two cases differ in length.
    assert_eq!(file_name("\u{212a}.pdf", "x.pdf"), "\u{212a}.pdf");
    assert_eq!(file_name("\u{23a}\u{23a}\u{23a}.pdf", "x.pdf"), "\u{23a}\u{23a}\u{23a}.pdf");
    assert_eq!(file_name("\u{23a}", "x.pdf"), "\u{23a}.pdf");
}
