use piton::emit::json::quote;
use piton::emit::markdown::{finish, heading, indent_continuations, paragraph};
use piton::emit::yaml;
use piton::emit::{heading_slug, relative_file, relative_link, Adapter};

#[test]
fn strings_escape_control_characters() {
    assert_eq!(quote("a\"b\nc"), "\"a\\\"b\\nc\"");
}

#[test]
fn json_quotes_other_control_characters_as_unicode_escapes() {
    assert_eq!(quote("\u{1}x\t"), "\"\\u0001x\\t\"");
    assert_eq!(quote("\u{1f}"), "\"\\u001f\"");
    assert_eq!(quote(""), "\"\"");
}

#[test]
fn adapters_parse_from_their_names() {
    assert_eq!(Adapter::from_str("json").unwrap(), Adapter::Json);
    assert_eq!(Adapter::from_str("MD").unwrap(), Adapter::Markdown);
    assert!(Adapter::from_str("toml").is_err());
}

#[test]
fn an_unknown_adapter_names_the_choices() {
    assert_eq!(Adapter::from_str("yml").unwrap(), Adapter::Yaml);
    assert_eq!(
        Adapter::from_str("TOML").unwrap_err(),
        "unknown adapter `toml`; valid options are json, yaml, markdown"
    );
}

#[test]
fn adapters_name_their_extensions() {
    assert_eq!(Adapter::Json.extension(), "json");
    assert_eq!(Adapter::Yaml.extension(), "yaml");
    assert_eq!(Adapter::Markdown.extension(), "md");
    assert_eq!(Adapter::Markdown.as_str(), "markdown");
    assert_eq!(Adapter::all(), [Adapter::Json, Adapter::Yaml, Adapter::Markdown]);
}

#[test]
fn headings_slug_like_github() {
    assert_eq!(heading_slug("My Property"), "my-property");
    assert_eq!(heading_slug("Button"), "button");
}

#[test]
fn slugs_drop_punctuation_and_keep_underscores() {
    assert_eq!(heading_slug("  What's new? (v2_beta)  "), "whats-new-v2_beta");
    assert_eq!(heading_slug("Ünïcode Title"), "ünïcode-title");
}

#[test]
fn relative_files_start_with_a_dot() {
    assert_eq!(relative_file("/p/a", "/p/a/B.json"), "./B.json");
    assert_eq!(relative_file("/p/a", "/p/c/B.json"), "../c/B.json");
}

#[test]
fn sibling_links_are_bare_names() {
    assert_eq!(
        relative_link("scope/language/types", "scope/language/types/Escaping.md"),
        "Escaping.md"
    );
}

#[test]
fn links_walk_up_and_across() {
    assert_eq!(
        relative_link("scope/language/types", "scope/language/variables/TypeCoercion.md"),
        "../variables/TypeCoercion.md"
    );
    assert_eq!(
        relative_link("scope/language", "scope/language/overview/Overview.md"),
        "overview/Overview.md"
    );
}

#[test]
fn links_ignore_repeated_separators_and_current_directories() {
    assert_eq!(relative_link("./a//b/", "a/b/./c.md"), "c.md");
    assert_eq!(relative_link("a/b", "a/b"), "b");
    assert_eq!(relative_link("a/b", "a/.."), "../..");
    assert_eq!(relative_link("a/b", "a/b/.."), "..");
    assert_eq!(relative_link("a/..", "a/.."), "");
}

#[test]
fn beyond_six_levels_titles_become_bold_labels() {
    assert_eq!(heading(7, "Deep"), "**Deep**\n");
    assert_eq!(heading(6, "Deep"), "###### Deep\n");
}

#[test]
fn a_document_ends_in_exactly_one_line_break() {
    assert_eq!(finish("a\n\n\n".to_string()), "a\n");
    assert_eq!(finish("a".to_string()), "a\n");
    assert_eq!(finish(String::new()), "\n");
}

#[test]
fn an_empty_paragraph_writes_nothing() {
    let mut out = String::from("x");
    paragraph("", &mut out);
    assert_eq!(out, "x");
    paragraph("text", &mut out);
    assert_eq!(out, "xtext\n\n");
}

#[test]
fn multiline_values_stay_inside_their_entry() {
    assert_eq!(indent_continuations("first\nsecond", 2), "first\n  second");
    assert_eq!(indent_continuations("a\r\nb\n", 1), "a\n b");
    assert_eq!(indent_continuations("", 4), "");
}

#[test]
fn ambiguous_scalars_are_quoted() {
    let map = vec![
        entry("a", text("true")),
        entry("b", text("42")),
        entry("c", text("+")),
        entry("d", text("a: b")),
        entry("e", Value::Bool(true)),
    ];
    assert_eq!(yaml::declarations(&map, &Vec::new()), "a: \"true\"\nb: \"42\"\nc: +\nd: \"a: b\"\ne: true\n");
    assert_eq!(yaml::quote("Adds two numbers"), "Adds two numbers");
}

#[test]
fn numbers_in_every_form_f64_reads_are_quoted() {
    for text in ["1.5", "-2", "+3e10", ".5", "5.", "1E-3", "inf", "-Infinity", "NaN"] {
        assert!(text.parse::<f64>().is_ok());
        assert_eq!(yaml::quote(text), format!("\"{text}\""), "{text}");
    }
    for text in ["1.2.3", "e5", "1e", "0x10", "infinite"] {
        assert!(text.parse::<f64>().is_err());
        assert_eq!(yaml::quote(text), text, "{text}");
    }
}

#[test]
fn yaml_keys_are_quoted_only_when_they_must_be() {
    assert_eq!(yaml::render_key("name"), "name");
    assert_eq!(yaml::render_key(""), "\"\"");
    assert_eq!(yaml::render_key("a:b"), "a:b");
    assert_eq!(yaml::render_key("#x"), "\"#x\"");
}

#[test]
fn blocks_start_on_the_bullet() {
    let mut out = String::new();
    yaml::push_block(&mut out, "  ", "    description: Adds\n    symbol: +\n");
    assert_eq!(out, "  - description: Adds\n    symbol: +\n");
    let mut empty = String::new();
    yaml::push_block(&mut empty, "", "");
    assert_eq!(empty, "- {}\n");
}

use piton::emit::markdown::{reference_markup, NoLinks};

#[test]
fn a_reference_links_where_the_resolver_says_and_falls_back_to_its_name() {
    assert_eq!(NoLinks.link("Button"), None);
    assert_eq!(reference_markup("Button", NoLinks.link("Button")), "Button");
    assert_eq!(
        reference_markup("Button", Some("./Button.md#button".to_string())),
        "[Button](./Button.md#button)"
    );
    assert_eq!(reference_markup("Card.title", Some("x.md#title".to_string())), "[Card.title](x.md#title)");
}

use piton::emit::value::{AnchorInfo, Value};

fn text(s: &str) -> Value {
    Value::Str(s.to_string())
}

fn entry(key: &str, value: Value) -> (String, Value) {
    (key.to_string(), value)
}

fn anchor(name: &str, path: &str, properties: Vec<(String, Value)>) -> AnchorInfo {
    AnchorInfo { name: name.to_string(), source_path: path.to_string(), properties }
}

#[test]
fn scalars_use_the_documented_forms() {
    let none = Vec::new();
    assert_eq!(piton::emit::json::value(&Value::Number("42".to_string()), &none), "42");
    assert_eq!(piton::emit::json::value(&Value::Number("3.14".to_string()), &none), "3.14");
    assert_eq!(piton::emit::json::value(&Value::Bool(true), &none), "true");
    assert_eq!(piton::emit::json::value(&Value::Null, &none), "null");
}

#[test]
fn mixed_blocks_group_adjacent_entries() {
    // Text, a list, and an entry, as the items a mixed block reads as.
    let mixed = Value::Mixed(vec![
        text("This is a string"),
        Value::List(vec![text("This"), text("Is")]),
        Value::Dict(vec![entry("nestedDictionary", Value::Dict(vec![entry("deeplyNested", text("x"))]))]),
    ]);
    assert_eq!(
        piton::emit::json::value(&mixed, &Vec::new()),
        "[\n  \"This is a string\",\n  [\n    \"This\",\n    \"Is\"\n  ],\n  {\n    \"nestedDictionary\": {\n      \"deeplyNested\": \"x\"\n    }\n  }\n]"
    );
}

#[test]
fn json_writes_anchors_in_place_and_references_as_ref_objects() {
    let anchors = vec![
        anchor("Button", "ui/Button.pi", vec![entry("label", text("OK")), entry("next", Value::Reference(1))]),
        anchor("Card", "ui/Card.pi", vec![entry("self", Value::Anchor(1))]),
        anchor("Empty", "e.pi", Vec::new()),
    ];
    assert_eq!(
        piton::emit::json::value(&Value::Anchor(0), &anchors),
        "{\n  \"label\": \"OK\",\n  \"next\": {\"$ref\": \"ui/Card.pi#Card\"}\n}"
    );
    // An anchor that embeds itself is written as a reference the second time.
    assert_eq!(
        piton::emit::json::value(&Value::Anchor(1), &anchors),
        "{\n  \"self\": {\"$ref\": \"ui/Card.pi#Card\"}\n}"
    );
    assert_eq!(piton::emit::json::value(&Value::Anchor(2), &anchors), "{}");
    assert_eq!(piton::emit::json::value(&Value::List(Vec::new()), &anchors), "[]");
    assert_eq!(
        piton::emit::json::declarations(&vec![entry("a", Value::Dict(Vec::new())), entry("b\"", text("q\n"))], &anchors),
        "{\n  \"a\": {},\n  \"b\\\"\": \"q\\n\"\n}\n"
    );
    assert_eq!(piton::emit::json::declarations(&Vec::new(), &anchors), "{}\n");
}

#[test]
fn plain_prose_stays_unquoted() {
    let map = vec![entry("description", text("Adds two numbers"))];
    assert_eq!(yaml::declarations(&map, &Vec::new()), "description: Adds two numbers\n");
}

#[test]
fn lists_nest_under_their_key() {
    let map = vec![entry("items", Value::List(vec![text("one"), text("two")]))];
    assert_eq!(yaml::declarations(&map, &Vec::new()), "items:\n- one\n- two\n");
}

#[test]
fn dictionaries_in_lists_start_on_the_bullet() {
    let item = Value::Dict(vec![entry("description", text("Adds")), entry("symbol", text("+"))]);
    let map = vec![entry("operators", Value::List(vec![item]))];
    assert_eq!(yaml::declarations(&map, &Vec::new()), "operators:\n- description: Adds\n  symbol: +\n");
}

#[test]
fn yaml_writes_anchors_in_place_and_cuts_cycles_with_references() {
    let anchors = vec![
        anchor("Button", "ui/Button.pi", vec![entry("label", text("OK")), entry("next", Value::Reference(1))]),
        anchor("Card", "ui/Card.pi", vec![entry("self", Value::Anchor(1)), entry("kids", Value::List(vec![Value::Anchor(1), Value::Anchor(2)]))]),
        anchor("Empty", "e.pi", Vec::new()),
    ];
    assert_eq!(
        yaml::value(&Value::Anchor(0), &anchors),
        "label: OK\nnext: \"!ref ui/Card.pi#Card\"\n"
    );
    assert_eq!(
        yaml::value(&Value::Anchor(1), &anchors),
        "self: ui/Card.pi#Card\nkids:\n- ui/Card.pi#Card\n- {}\n"
    );
    let map = vec![
        entry("card", Value::Anchor(1)),
        entry("none", Value::Anchor(2)),
        entry("empty", Value::List(Vec::new())),
        entry("blank", Value::Dict(Vec::new())),
        entry("mixed", Value::Mixed(vec![text("a"), Value::List(vec![text("b")]), Value::List(Vec::new())])),
    ];
    assert_eq!(
        yaml::declarations(&map, &anchors),
        "card:\n  self: ui/Card.pi#Card\n  kids:\n  - ui/Card.pi#Card\n  - {}\nnone: {}\nempty: []\nblank: {}\nmixed:\n- a\n-\n  - b\n- null\n"
    );
    assert_eq!(yaml::declarations(&Vec::new(), &anchors), "{}\n");
    assert_eq!(yaml::value(&Value::Null, &anchors), "null\n");
    assert_eq!(yaml::value(&Value::Number("3.5".to_string()), &anchors), "3.5\n");
    assert_eq!(yaml::value(&Value::Mixed(Vec::new()), &anchors), "\n");
    assert_eq!(
        yaml::value(&Value::List(vec![Value::Mixed(vec![text("x")]), Value::Dict(vec![entry("k", Value::Dict(vec![entry("j", Value::Null)]))])]), &anchors),
        "-\n  - x\n- k:\n    j: null\n"
    );
}

#[test]
fn booleans_and_null_in_any_case_are_quoted() {
    for word in ["True", "NULL", "Yes", "TRUE", "False", "On", "Off", "nO"] {
        assert_eq!(yaml::quote(word), format!("\"{word}\""));
    }
    assert_eq!(yaml::quote("Truth"), "Truth");
    assert_eq!(yaml::quote("Online"), "Online");
}
