//! The TextMate grammar, shared by VS Code, JetBrains, Sublime Text, and Kate.
use vstd::prelude::*;

use crate::grammar::{
    alternation, json_escaped, json_regex, longest_first, sigil_pattern, texts, Vocabulary, SIGIL_CHARS,
};
use crate::path::join;
use crate::text::{flat_map, push_str};

verus! {

/// The grammar's text, with each word list and the sigil pattern in its place.
pub open spec fn grammar_text(
    declaration: Seq<char>,
    self_words: Seq<char>,
    literals: Seq<char>,
    types: Seq<char>,
    sigils: Seq<char>,
    framework: Seq<char>,
) -> Seq<char> {
    r##"{
  "$schema": "https://raw.githubusercontent.com/martinring/tmlanguage/master/tmlanguage.json",
  "name": "Piton",
  "scopeName": "source.piton",
  "fileTypes": ["pi"],
  "patterns": [
    { "include": "#comment" },
    { "include": "#import" },
    { "include": "#anchor-declaration" },
    { "include": "#keyword-declaration" },
    { "include": "#property" },
    { "include": "#bullet" },
    { "include": "#spread" },
    { "include": "#value" }
  ],
  "repository": {
    "comment": {
      "match": "(?:^|(?<=\\s))(//.*)$",
      "captures": { "1": { "name": "comment.line.double-slash.piton" } }
    },
    "import": {
      "match": "^\\s*(from)\\s+(\\S+)\\s+(import|export)\\b|^\\s*(use)\\s+(\\S+)|^\\s*(export)\\s+([A-Za-z_][\\w-]*)\\s*$",
      "captures": {
        "1": { "name": "keyword.control.import.piton" },
        "2": { "name": "string.unquoted.path.piton" },
        "3": { "name": "keyword.control.import.piton" },
        "4": { "name": "keyword.control.import.piton" },
        "5": { "name": "string.unquoted.path.piton" },
        "6": { "name": "keyword.control.import.piton" },
        "7": { "name": "entity.name.type.piton" }
      }
    },
    "anchor-declaration": {
      "match": "^\\s*(?:(export)\\s+)?(?:(abstract)\\s+)?(anchor)\\s+([A-Za-z_][\\w-]*)(?:\\s+(extends)\\s+([^:]*))?(?:\\s+(as)\\s+([a-z][a-z0-9-]*))?\\s*(:)",
      "captures": {
        "1": { "name": "keyword.control.piton" },
        "2": { "name": "storage.modifier.piton" },
        "3": { "name": "keyword.control.piton" },
        "4": { "name": "entity.name.type.anchor.piton" },
        "5": { "name": "keyword.control.piton" },
        "6": { "name": "entity.other.inherited-class.piton" },
        "7": { "name": "keyword.control.piton" },
        "8": { "name": "entity.name.function.keyword.piton" },
        "9": { "name": "punctuation.separator.key-value.piton" }
      }
    },
    "keyword-declaration": {
      "match": "^\\s*(?:(export)\\s+)?("##@
        + framework
        + r##"|[a-z][a-z0-9-]*)\\s+([A-Za-z_][\\w-]*)(?:\\s+(extends)\\s+([^:]*))?\\s*(:)",
      "captures": {
        "1": { "name": "keyword.control.piton" },
        "2": { "name": "entity.name.function.keyword.piton" },
        "3": { "name": "entity.name.type.anchor.piton" },
        "4": { "name": "keyword.control.piton" },
        "5": { "name": "entity.other.inherited-class.piton" },
        "6": { "name": "punctuation.separator.key-value.piton" }
      }
    },
    "property": {
      "begin": "^\\s*([\\w][\\w-]*)(?=\\s*(?:::|:)(?:\\s|$))",
      "beginCaptures": { "1": { "name": "entity.name.tag.piton" } },
      "end": "$",
      "patterns": [
        { "include": "#comment" },
        { "include": "#type-annotation" },
        {
          "match": ":",
          "name": "punctuation.separator.key-value.piton"
        },
        { "include": "#value" }
      ]
    },
    "type-annotation": {
      "begin": "(::)",
      "beginCaptures": { "1": { "name": "keyword.operator.type.piton" } },
      "end": "(?=::|:\\s|:$|$)",
      "patterns": [
        { "match": "\\b(extends)\\b", "name": "keyword.control.piton" },
        { "match": "\\b("##@
        + types
        + r##")\\b", "name": "support.type.builtin.piton" },
        { "match": "\\b([A-Z][\\w-]*)\\b", "name": "entity.name.type.piton" },
        { "match": "\\[\\]", "name": "punctuation.definition.list.piton" }
      ]
    },
    "bullet": {
      "match": "^\\s*(-)(?=\\s|$)",
      "captures": { "1": { "name": "punctuation.definition.list.begin.piton" } }
    },
    "spread": {
      "match": "^\\s*(\\+\\+?)(?=\\s|$)",
      "captures": { "1": { "name": "keyword.operator.spread.piton" } }
    },
    "value": {
      "patterns": [
        { "include": "#comment" },
        { "include": "#interpolation" },
        { "include": "#string" },
        { "include": "#number" },
        { "include": "#constant" },
        { "include": "#operator" }
      ]
    },
    "interpolation": {
      "begin": "("##@
        + sigils
        + r#")?(\\{)",
      "beginCaptures": {
        "1": { "name": "keyword.other.sigil.piton" },
        "2": { "name": "punctuation.section.embedded.begin.piton" }
      },
      "end": "(\\})",
      "endCaptures": { "1": { "name": "punctuation.section.embedded.end.piton" } },
      "name": "meta.embedded.expression.piton",
      "patterns": [
        { "match": "\\b("#@
        + self_words
        + r#")\\b", "name": "variable.language.piton" },
        { "match": "\\b("#@
        + literals
        + r##")\\b", "name": "constant.language.piton" },
        { "include": "#string" },
        { "include": "#number" },
        { "include": "#operator" },
        { "match": "\\b([A-Z][\\w-]*)\\b", "name": "entity.name.type.piton" },
        { "match": "\\b([a-z_][\\w-]*)\\b", "name": "variable.other.piton" }
      ]
    },
    "string": {
      "name": "string.quoted.double.piton",
      "begin": "\"",
      "end": "\"",
      "patterns": [{ "match": "\\\\.", "name": "constant.character.escape.piton" }]
    },
    "number": {
      "match": "(?<![\\w.])\\d[\\d_]*(?:\\.\\d[\\d_]*)?(?![\\w.])",
      "name": "constant.numeric.piton"
    },
    "constant": {
      "match": "(?<![\\w-])("##@
        + literals
        + r#")(?![\\w-])",
      "name": "constant.language.piton"
    },
    "operator": {
      "match": "(?<=\\s|\\(|\\[|,)(\\+\\+|\\|\\||&&|==|!=|>=|<=|[-+*/%<>?:])(?=\\s|\\)|\\]|,|$)",
      "name": "keyword.operator.piton"
    },
    "escape": {
      "match": "\\\\.",
      "name": "constant.character.escape.piton"
    },
    "declaration-keywords": {
      "match": "(?<![\\w-])("#@
        + declaration
        + r#")(?![\\w-])",
      "name": "keyword.control.piton"
    }
  }
}
"#@
}

/// A word list as an alternation, longest first.
pub open spec fn alternation_of(words: Seq<String>) -> Seq<char> {
    join(longest_first(texts(words)), seq!['|'])
}

/// The grammar for a vocabulary. A vocabulary without framework keywords gets
/// a pattern that never matches in their place.
pub open spec fn grammar_for(v: Vocabulary) -> Seq<char> {
    grammar_text(
        alternation_of(v.declaration@),
        alternation_of(v.self_words@),
        alternation_of(v.literals@),
        alternation_of(v.types@),
        flat_map(
            SIGIL_CHARS@ + seq!['+'],
            |c: char| json_escaped(c),
        ),
        if v.framework@.len() == 0 { "(?!)"@ } else { alternation_of(v.framework@) },
    )
}

/// Builds `piton.tmLanguage.json`.
pub fn grammar(vocabulary: &Vocabulary) -> (text: String)
    ensures
        text@ == grammar_for(*vocabulary),
{
    let declaration = alternation(&vocabulary.declaration);
    let self_words = alternation(&vocabulary.self_words);
    let literals = alternation(&vocabulary.literals);
    let types = alternation(&vocabulary.types);
    // The grammar is JSON, so every regex backslash and quote has to survive
    // encoding.
    let sigils = json_regex(sigil_pattern().as_str());
    let framework = if vocabulary.framework.len() == 0 {
        String::from_str("(?!)")
    } else {
        alternation(&vocabulary.framework)
    };
    let mut out = String::new();
    push_str(&mut out, r##"{
  "$schema": "https://raw.githubusercontent.com/martinring/tmlanguage/master/tmlanguage.json",
  "name": "Piton",
  "scopeName": "source.piton",
  "fileTypes": ["pi"],
  "patterns": [
    { "include": "#comment" },
    { "include": "#import" },
    { "include": "#anchor-declaration" },
    { "include": "#keyword-declaration" },
    { "include": "#property" },
    { "include": "#bullet" },
    { "include": "#spread" },
    { "include": "#value" }
  ],
  "repository": {
    "comment": {
      "match": "(?:^|(?<=\\s))(//.*)$",
      "captures": { "1": { "name": "comment.line.double-slash.piton" } }
    },
    "import": {
      "match": "^\\s*(from)\\s+(\\S+)\\s+(import|export)\\b|^\\s*(use)\\s+(\\S+)|^\\s*(export)\\s+([A-Za-z_][\\w-]*)\\s*$",
      "captures": {
        "1": { "name": "keyword.control.import.piton" },
        "2": { "name": "string.unquoted.path.piton" },
        "3": { "name": "keyword.control.import.piton" },
        "4": { "name": "keyword.control.import.piton" },
        "5": { "name": "string.unquoted.path.piton" },
        "6": { "name": "keyword.control.import.piton" },
        "7": { "name": "entity.name.type.piton" }
      }
    },
    "anchor-declaration": {
      "match": "^\\s*(?:(export)\\s+)?(?:(abstract)\\s+)?(anchor)\\s+([A-Za-z_][\\w-]*)(?:\\s+(extends)\\s+([^:]*))?(?:\\s+(as)\\s+([a-z][a-z0-9-]*))?\\s*(:)",
      "captures": {
        "1": { "name": "keyword.control.piton" },
        "2": { "name": "storage.modifier.piton" },
        "3": { "name": "keyword.control.piton" },
        "4": { "name": "entity.name.type.anchor.piton" },
        "5": { "name": "keyword.control.piton" },
        "6": { "name": "entity.other.inherited-class.piton" },
        "7": { "name": "keyword.control.piton" },
        "8": { "name": "entity.name.function.keyword.piton" },
        "9": { "name": "punctuation.separator.key-value.piton" }
      }
    },
    "keyword-declaration": {
      "match": "^\\s*(?:(export)\\s+)?("##);
    push_str(&mut out, framework.as_str());
    push_str(&mut out, r##"|[a-z][a-z0-9-]*)\\s+([A-Za-z_][\\w-]*)(?:\\s+(extends)\\s+([^:]*))?\\s*(:)",
      "captures": {
        "1": { "name": "keyword.control.piton" },
        "2": { "name": "entity.name.function.keyword.piton" },
        "3": { "name": "entity.name.type.anchor.piton" },
        "4": { "name": "keyword.control.piton" },
        "5": { "name": "entity.other.inherited-class.piton" },
        "6": { "name": "punctuation.separator.key-value.piton" }
      }
    },
    "property": {
      "begin": "^\\s*([\\w][\\w-]*)(?=\\s*(?:::|:)(?:\\s|$))",
      "beginCaptures": { "1": { "name": "entity.name.tag.piton" } },
      "end": "$",
      "patterns": [
        { "include": "#comment" },
        { "include": "#type-annotation" },
        {
          "match": ":",
          "name": "punctuation.separator.key-value.piton"
        },
        { "include": "#value" }
      ]
    },
    "type-annotation": {
      "begin": "(::)",
      "beginCaptures": { "1": { "name": "keyword.operator.type.piton" } },
      "end": "(?=::|:\\s|:$|$)",
      "patterns": [
        { "match": "\\b(extends)\\b", "name": "keyword.control.piton" },
        { "match": "\\b("##);
    push_str(&mut out, types.as_str());
    push_str(&mut out, r##")\\b", "name": "support.type.builtin.piton" },
        { "match": "\\b([A-Z][\\w-]*)\\b", "name": "entity.name.type.piton" },
        { "match": "\\[\\]", "name": "punctuation.definition.list.piton" }
      ]
    },
    "bullet": {
      "match": "^\\s*(-)(?=\\s|$)",
      "captures": { "1": { "name": "punctuation.definition.list.begin.piton" } }
    },
    "spread": {
      "match": "^\\s*(\\+\\+?)(?=\\s|$)",
      "captures": { "1": { "name": "keyword.operator.spread.piton" } }
    },
    "value": {
      "patterns": [
        { "include": "#comment" },
        { "include": "#interpolation" },
        { "include": "#string" },
        { "include": "#number" },
        { "include": "#constant" },
        { "include": "#operator" }
      ]
    },
    "interpolation": {
      "begin": "("##);
    push_str(&mut out, sigils.as_str());
    push_str(&mut out, r#")?(\\{)",
      "beginCaptures": {
        "1": { "name": "keyword.other.sigil.piton" },
        "2": { "name": "punctuation.section.embedded.begin.piton" }
      },
      "end": "(\\})",
      "endCaptures": { "1": { "name": "punctuation.section.embedded.end.piton" } },
      "name": "meta.embedded.expression.piton",
      "patterns": [
        { "match": "\\b("#);
    push_str(&mut out, self_words.as_str());
    push_str(&mut out, r#")\\b", "name": "variable.language.piton" },
        { "match": "\\b("#);
    push_str(&mut out, literals.as_str());
    push_str(&mut out, r##")\\b", "name": "constant.language.piton" },
        { "include": "#string" },
        { "include": "#number" },
        { "include": "#operator" },
        { "match": "\\b([A-Z][\\w-]*)\\b", "name": "entity.name.type.piton" },
        { "match": "\\b([a-z_][\\w-]*)\\b", "name": "variable.other.piton" }
      ]
    },
    "string": {
      "name": "string.quoted.double.piton",
      "begin": "\"",
      "end": "\"",
      "patterns": [{ "match": "\\\\.", "name": "constant.character.escape.piton" }]
    },
    "number": {
      "match": "(?<![\\w.])\\d[\\d_]*(?:\\.\\d[\\d_]*)?(?![\\w.])",
      "name": "constant.numeric.piton"
    },
    "constant": {
      "match": "(?<![\\w-])("##);
    push_str(&mut out, literals.as_str());
    push_str(&mut out, r#")(?![\\w-])",
      "name": "constant.language.piton"
    },
    "operator": {
      "match": "(?<=\\s|\\(|\\[|,)(\\+\\+|\\|\\||&&|==|!=|>=|<=|[-+*/%<>?:])(?=\\s|\\)|\\]|,|$)",
      "name": "keyword.operator.piton"
    },
    "escape": {
      "match": "\\\\.",
      "name": "constant.character.escape.piton"
    },
    "declaration-keywords": {
      "match": "(?<![\\w-])("#);
    push_str(&mut out, declaration.as_str());
    push_str(&mut out, r#")(?![\\w-])",
      "name": "keyword.control.piton"
    }
  }
}
"#);
    out
}

/// The bracket and comment configuration VS Code-style editors expect.
pub const LANGUAGE_CONFIGURATION: &'static str = r#"{
  "comments": { "lineComment": "//" },
  "brackets": [["{", "}"], ["[", "]"], ["(", ")"]],
  "autoClosingPairs": [
    { "open": "{", "close": "}" },
    { "open": "[", "close": "]" },
    { "open": "(", "close": ")" },
    { "open": "\"", "close": "\"", "notIn": ["string"] }
  ],
  "surroundingPairs": [["{", "}"], ["[", "]"], ["(", ")"], ["\"", "\""]],
  "indentationRules": {
    "increaseIndentPattern": ":\\s*$",
    "decreaseIndentPattern": "^\\s*$"
  },
  "onEnterRules": [
    {
      "beforeText": ":\\s*$",
      "action": { "indent": "indent" }
    },
    {
      "beforeText": "^\\s*-\\s+\\S.*$",
      "action": { "indent": "none", "appendText": "- " }
    }
  ],
  "wordPattern": "[A-Za-z_][A-Za-z0-9_-]*"
}
"#;

/// The bracket and comment configuration VS Code-style editors expect.
pub fn language_configuration() -> (text: String)
    ensures
        text@ == LANGUAGE_CONFIGURATION@,
{
    String::from_str(LANGUAGE_CONFIGURATION)
}

} // verus!
