//! Does the TextMate grammar highlight Piton correctly? Its patterns are
//! compiled and run against the language's awkward cases.

use fancy_regex::Regex;
use piton::grammar::{generate, GrammarSource, Vocabulary};
use serde_json::Value;

fn words(list: &[&str]) -> Vec<String> {
    list.iter().map(|it| it.to_string()).collect()
}

const BUILTIN_TYPES: [&str; 6] = ["boolean", "complex", "dictionary", "list", "number", "string"];

/// The compiler's words, as its keyword tables list them.
fn compiler_words() -> Vocabulary {
    Vocabulary {
        declaration: words(&["abstract", "anchor", "as", "export", "extends", "from", "import", "use"]),
        self_words: words(&["self", "super", "this"]),
        literals: words(&["false", "null", "true"]),
        types: words(&BUILTIN_TYPES),
        framework: Vec::new(),
        sigils: Vec::new(),
    }
}

fn grammar() -> Value {
    let vocabulary = compiler_words().with_framework(words(&["agent", "skill"]), words(&["@"]));
    let files = generate(&vocabulary, &GrammarSource::default(), &Vec::new(), &Vec::new());
    let file = files
        .iter()
        .find(|file| file.path.ends_with("shared/piton.tmLanguage.json"))
        .expect("the TextMate grammar is generated");
    serde_json::from_str(&file.contents).expect("the grammar is valid JSON")
}

/// Every `match`, `begin`, and `end` in the grammar, with the rule it came from.
fn patterns(grammar: &Value) -> Vec<(String, String)> {
    let mut out = Vec::new();
    let repository = grammar["repository"].as_object().expect("a repository");
    for (name, rule) in repository {
        collect(name, rule, &mut out);
    }
    out
}

fn collect(name: &str, rule: &Value, out: &mut Vec<(String, String)>) {
    for key in ["match", "begin", "end"] {
        if let Some(pattern) = rule[key].as_str() {
            out.push((format!("{name}.{key}"), pattern.to_string()));
        }
    }
    if let Some(nested) = rule["patterns"].as_array() {
        for (index, inner) in nested.iter().enumerate() {
            collect(&format!("{name}[{index}]"), inner, out);
        }
    }
}

/// Find one named rule's pattern.
fn pattern(grammar: &Value, name: &str, key: &str) -> Regex {
    let raw = grammar["repository"][name][key]
        .as_str()
        .unwrap_or_else(|| panic!("no {name}.{key} in the grammar"));
    Regex::new(raw).unwrap_or_else(|error| panic!("{name}.{key} does not compile: {error}"))
}

fn hits(regex: &Regex, text: &str) -> bool {
    regex.is_match(text).unwrap_or(false)
}

#[test]
fn every_pattern_compiles() {
    let grammar = grammar();
    let patterns = patterns(&grammar);
    assert!(patterns.len() > 10, "expected a grammar with real rules, found {}", patterns.len());
    for (name, raw) in patterns {
        Regex::new(&raw).unwrap_or_else(|error| panic!("{name} does not compile: {error}\n{raw}"));
    }
}

#[test]
fn every_include_points_at_a_rule_that_exists() {
    let grammar = grammar();
    let repository = grammar["repository"].as_object().unwrap();
    let mut stack: Vec<&Value> = vec![&grammar];
    let mut seen = 0;
    while let Some(node) = stack.pop() {
        // A rule is referred to as `#name`, and nothing else in a grammar
        // starts that way.
        if let Some(object) = node.as_object() {
            for value in object.values() {
                if let Some(name) = value.as_str().and_then(|it| it.strip_prefix('#')) {
                    assert!(repository.contains_key(name), "`#{name}` is not in the repository");
                    seen += 1;
                }
            }
        }
        for key in ["patterns"] {
            if let Some(list) = node[key].as_array() {
                stack.extend(list.iter());
            }
        }
        if let Some(object) = node.as_object() {
            for value in object.values() {
                if value.is_object() {
                    stack.push(value);
                }
            }
        }
    }
    assert!(seen > 5, "expected the grammar to use includes, saw {seen}");
}

#[test]
fn the_grammar_declares_the_language_it_is_for() {
    let grammar = grammar();
    assert_eq!(grammar["scopeName"], "source.piton");
    assert_eq!(grammar["fileTypes"][0], "pi");
}

#[test]
fn a_comment_starts_at_a_word_boundary_and_not_inside_a_url() {
    let grammar = grammar();
    let comment = pattern(&grammar, "comment", "match");
    assert!(hits(&comment, "// a whole line"));
    assert!(hits(&comment, "x: 1 // trailing"));
    assert!(hits(&comment, "    // indented"));
    // The rule that makes prose usable: a URL is not a comment.
    assert!(!hits(&comment, "url: https://example.com/a//b"));
    assert!(!hits(&comment, "x: a//b"));
}

#[test]
fn a_property_key_is_recognised_and_prose_is_not() {
    let grammar = grammar();
    let property = pattern(&grammar, "property", "begin");
    for key in ["name: value", "    name: value", "name:", "name:: string: 1", "kebab-key: v"] {
        assert!(hits(&property, key), "{key:?} should be a key");
    }
    for prose in ["Note that something", "  just some prose", "- a list item"] {
        assert!(!hits(&property, prose), "{prose:?} is not a key");
    }
}

#[test]
fn numbers_are_recognised_only_when_they_stand_alone() {
    let grammar = grammar();
    let number = pattern(&grammar, "number", "match");
    for good in ["42", "3.14", "1_200_000.00", "x: 42"] {
        assert!(hits(&number, good), "{good:?} contains a number");
    }
    // A leading dot is not a decimal, and a version inside a word is not one.
    assert!(!hits(&number, ".14"));
    assert!(!hits(&number, "v2rc"));
}

#[test]
fn an_operator_needs_space_around_it_so_hyphens_survive() {
    let grammar = grammar();
    let operator = pattern(&grammar, "operator", "match");
    for arithmetic in ["3.14 - 3.14", "a + b", "[1] ++ [2]", "x && y"] {
        assert!(hits(&operator, arithmetic), "{arithmetic:?} has an operator");
    }
    for prose in ["a well-known thing", "e.g. this", "kebab-case-name"] {
        assert!(!hits(&operator, prose), "{prose:?} has no operator");
    }
}

#[test]
fn every_interpolation_sigil_opens_an_embedded_region() {
    let grammar = grammar();
    let interpolation = pattern(&grammar, "interpolation", "begin");
    for good in ["${name}", "@{Anchor}", "reference{Other}", "{bare}"] {
        assert!(hits(&interpolation, good), "{good:?} opens an interpolation");
    }
    // A price is not a sigil.
    assert!(!hits(&interpolation, "This costs $5 plus tax"));
}

#[test]
fn declarations_capture_their_names() {
    let grammar = grammar();
    let anchor = pattern(&grammar, "anchor-declaration", "match");
    for good in [
        "anchor A:",
        "export anchor A:",
        "abstract anchor A:",
        "export abstract anchor A extends B, C as kw:",
    ] {
        assert!(hits(&anchor, good), "{good:?} is an anchor declaration");
    }
    assert!(!hits(&anchor, "anchors are useful"));

    let keyword = pattern(&grammar, "keyword-declaration", "match");
    assert!(hits(&keyword, "skill BuildThing:"));
    assert!(hits(&keyword, "export agent Critic extends Base:"));

    let import = pattern(&grammar, "import", "match");
    for good in ["from ./a import B", "from @piton/belay import Agent", "use ./keywords"] {
        assert!(hits(&import, good), "{good:?} is an import");
    }
}

#[test]
fn constants_and_types_come_from_the_compiler() {
    let grammar = grammar();
    let constant = pattern(&grammar, "constant", "match");
    for literal in ["true", "false", "null"] {
        assert!(hits(&constant, &format!("x: {literal}")), "{literal} is a literal");
    }
    // Part of a word is not a literal.
    assert!(!hits(&constant, "x: truest"));
    assert!(!hits(&constant, "x: nullable"));

    let annotation = pattern(&grammar, "type-annotation", "begin");
    assert!(hits(&annotation, "x:: string"));
    for builtin in BUILTIN_TYPES {
        let types = pattern(&grammar, "type-annotation", "begin");
        assert!(hits(&types, &format!("x:: {builtin}")), "{builtin} is a built-in type");
    }
}

#[test]
fn the_language_configuration_is_usable() {
    let vocabulary = compiler_words();
    let files = generate(&vocabulary, &GrammarSource::default(), &Vec::new(), &Vec::new());
    let configuration = files
        .iter()
        .find(|file| file.path.ends_with("shared/language-configuration.json"))
        .expect("a language configuration is generated");
    let value: Value = serde_json::from_str(&configuration.contents).expect("valid JSON");
    assert_eq!(value["comments"]["lineComment"], "//");
    // Every indentation rule has to be a usable regular expression.
    for key in ["increaseIndentPattern", "decreaseIndentPattern"] {
        let raw = value["indentationRules"][key].as_str().expect(key);
        Regex::new(raw).unwrap_or_else(|error| panic!("{key}: {error}"));
    }
    let increase = Regex::new(value["indentationRules"]["increaseIndentPattern"].as_str().unwrap())
        .unwrap();
    assert!(hits(&increase, "anchor A:"), "a declaration opens a block");
    assert!(hits(&increase, "    items:"), "so does a property with no value");
    assert!(!hits(&increase, "    name: value"), "a property with a value does not");
}
