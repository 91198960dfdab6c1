use sorting_hat::systems::{canonical, spell, NEUTRAL};
use sorting_hat::table::TextMap;

fn none() -> TextMap<String> {
    TextMap::new()
}

#[test]
fn folds_the_many_spellings_of_one_system() {
    for raw in ["D&D 5e", "D&D", "Dungeons & Dragons", "Dungeons and Dragons 5th Edition", "dnd"] {
        assert_eq!(canonical(raw, &none()), "D&D 5e", "{raw}");
    }
    assert_eq!(canonical("Pathfinder", &none()), "Pathfinder 1e");
    assert_eq!(canonical("pathfinder 2e", &none()), "Pathfinder 2e");
}

#[test]
fn keeps_editions_apart() {
    assert_eq!(canonical("D&D 3.5e", &none()), "D&D 3.5e");
    assert_ne!(canonical("D&D 3.5e", &none()), canonical("D&D 5e", &none()));
    assert_ne!(canonical("Pathfinder 2e", &none()), canonical("Pathfinder", &none()));
}

#[test]
fn unnamed_systems_share_the_generic_shelf() {
    assert_eq!(canonical("unknown", &none()), NEUTRAL);
    assert_eq!(canonical("", &none()), NEUTRAL);
    assert_eq!(canonical("  System Neutral ", &none()), NEUTRAL);
}

#[test]
fn an_unanticipated_system_keeps_its_own_name() {
    // The whole point: a system this table never heard of must not be
    // silently swept onto the generic shelf.
    assert_eq!(canonical("Cyberpunk Red", &none()), "Cyberpunk Red");
    assert_eq!(canonical("Mothership", &none()), "Mothership");
    assert_eq!(canonical("Blades in the Dark", &none()), "Blades in the Dark");
}

#[test]
fn config_overrides_win() {
    let mut o: TextMap<String> = TextMap::new();
    o.insert("d&d".to_string(), "D&D 3.5e".to_string());
    assert_eq!(canonical("D&D", &o), "D&D 3.5e");
}

#[test]
fn lower_case_is_more_than_ascii() {
    let mut o: TextMap<String> = TextMap::new();
    o.insert("élan".to_string(), "Elan".to_string());
    assert_eq!(canonical(" ÉLAN ", &o), "Elan");
}

#[test]
fn a_name_that_is_only_blank_is_neutral() {
    assert_eq!(spell("  ", "anything", &none()), NEUTRAL);
    assert_eq!(spell(" Mothership ", "mothership", &none()), "Mothership");
}

#[test]
fn spelling_twice_is_spelling_once() {
    for raw in ["dnd", "  Pathfinder ", "", "Mothership", "call OF cthulhu", "any", "AD&D", "\u{130}"] {
        let once = canonical(raw, &none());
        assert_eq!(canonical(&once, &none()), once, "{raw}");
    }
}
