use sorting_hat::brain::extract_json;
use sorting_hat::brain::engine::{overfills, picture_overfills, wrap};

#[test]
fn finds_object_in_prose() {
    assert_eq!(extract_json("sure! {\"a\":1} done"), Some("{\"a\":1}"));
}

#[test]
fn ignores_braces_inside_strings() {
    assert_eq!(extract_json(r#"{"a":"}"}"#), Some(r#"{"a":"}"}"#));
}

#[test]
fn handles_arrays_and_nesting() {
    assert_eq!(extract_json("x [1,[2],3] y"), Some("[1,[2],3]"));
}

#[test]
fn none_when_unbalanced() {
    assert_eq!(extract_json("{\"a\":1"), None);
}

#[test]
fn an_escaped_quote_does_not_end_a_string() {
    let reply = r#"ok {"a":"x\"}y"} and more"#;
    assert_eq!(extract_json(reply), Some(r#"{"a":"x\"}y"}"#));
}

#[test]
fn brackets_of_the_other_kind_are_not_counted() {
    assert_eq!(extract_json("{\"a\":[1,2]} tail"), Some("{\"a\":[1,2]}"));
    assert_eq!(extract_json("no json here"), None);
}

#[test]
fn every_chat_template_wraps_both_turns() {
    assert_eq!(
        wrap("chatml", "S", "U"),
        "<|im_start|>system\nS<|im_end|>\n<|im_start|>user\nU<|im_end|>\n<|im_start|>assistant\n"
    );
    assert_eq!(wrap("mistral", "S", "U"), "<s>[INST] S\n\nU [/INST]");
    assert_eq!(wrap("plain", "S", "U"), "S\n\nU\n\n");
    assert!(wrap("llama3", "S", "U").starts_with("<|begin_of_text|>"));
    assert_eq!(wrap("something else", "S", "U"), wrap("chatml", "S", "U"));
}

#[test]
fn a_full_window_leaves_no_room() {
    assert!(overfills(7680, 512, 8192));
    assert!(!overfills(7679, 512, 8192));
    assert!(picture_overfills(8000, 512, 8192));
    assert!(!picture_overfills(2000, 512, 8192));
}
