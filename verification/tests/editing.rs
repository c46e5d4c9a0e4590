use piton::lsp::actions::{body_indent, end_of_content};
use piton::lsp::analysis::{line_span, render_from, snippet};
use piton::lsp::completion::{
    expression_context, import_line_context, line_start_context, ExpressionContext, LineContext,
};
use piton::lsp::convert::{Position, Span};
use piton::lsp::features::{in_nested_block, returns_to_column_zero, truncate};
use piton::lsp::indentation::on_type_formatting;
use piton::lsp::line_index::TextRange;

fn pos(line: u32, character: u32) -> Position {
    Position { line, character }
}

fn strings(words: &[&str]) -> Vec<String> {
    words.iter().map(|it| it.to_string()).collect()
}

/// The edit for a line break typed at `position`, taking each line's code to
/// be the whole line, as it is when no comment is written on it.
fn indent_after(text: &str, position: Position) -> Option<(Position, Position, String)> {
    let line = position.line as usize;
    let lines: Vec<&str> = text.split('\n').collect();
    let previous = if line > 0 { lines[line - 1] } else { "" };
    let above = lines[..line].iter().rev().find(|it| !it.trim().is_empty()).copied().unwrap_or("");
    on_type_formatting(text, position, "\n", previous, above).map(|edits| {
        assert_eq!(edits.len(), 1);
        (edits[0].range.start, edits[0].range.end, edits[0].new_text.clone())
    })
}

#[test]
fn a_declaration_opens_a_block() {
    assert_eq!(indent_after("anchor A:\n", pos(1, 0)), Some((pos(1, 0), pos(1, 0), "    ".to_string())));
    // Already where it belongs: nothing to do.
    assert_eq!(indent_after("anchor A:\n    ", pos(1, 4)), None);
    // A key with a value opens nothing, and the depth is kept.
    assert_eq!(
        indent_after("    title: a book\n", pos(1, 0)),
        Some((pos(1, 0), pos(1, 0), "    ".to_string()))
    );
    // A list item is never a key.
    assert_eq!(indent_after("- Settings:\n", pos(1, 0)), None);
}

#[test]
fn only_a_line_break_reindents() {
    assert!(on_type_formatting("anchor A:\n", pos(1, 0), "x", "anchor A:", "").is_none());
    assert!(on_type_formatting("anchor A:\r\n", pos(1, 0), "\r\n", "anchor A:", "").is_some());
    // The first line has nothing above it.
    assert_eq!(indent_after("anchor A:", pos(0, 3)), None);
}

#[test]
fn a_blank_indented_line_backs_out_a_level() {
    assert_eq!(
        indent_after("a:\n    b: 1\n    \n    c", pos(3, 4)),
        Some((pos(3, 0), pos(3, 4), String::new()))
    );
}

#[test]
fn an_emptied_line_is_measured_from_the_content_above() {
    assert_eq!(
        indent_after("a:\n    b:\n\n", pos(3, 0)),
        Some((pos(3, 0), pos(3, 0), "    ".to_string()))
    );
    assert_eq!(indent_after("a:\n    b:\n\n\n", pos(4, 0)), None);
}

#[test]
fn an_escape_block_is_left_as_written() {
    assert_eq!(indent_after("a:\n\\\\\\\\\nx:\n", pos(3, 0)), None);
}

#[test]
fn a_comment_is_not_structure() {
    // The line ends in a colon only inside its comment.
    assert!(on_type_formatting("// note:\n", pos(1, 0), "\n", "", "").is_none());
}

#[test]
fn a_nested_line_belongs_to_a_key() {
    let text = "anchor A:\n    p:\n        q: 1\n";
    assert!(in_nested_block(text, text.find("        q").unwrap() + 8));
    assert!(!in_nested_block(text, text.find("    p").unwrap()));
    assert!(!in_nested_block(text, 0));
}

#[test]
fn a_line_at_the_margin_is_noticed() {
    let text = "a:\n    b\nc\n";
    assert!(returns_to_column_zero(text, 0, text.len()));
    assert!(!returns_to_column_zero(text, 0, 9));
    assert!(!returns_to_column_zero(text, text.len(), 0));
}

#[test]
fn previews_are_cut_to_a_limit() {
    assert_eq!(truncate("abc  ", 10), "abc");
    assert_eq!(truncate("abcdef", 3), "abc\n\u{2026}");
    assert_eq!(truncate("", 0), "");
}

#[test]
fn a_trailing_dot_asks_for_members() {
    assert_eq!(
        expression_context("    a: {self.na"),
        ExpressionContext::Member { path: strings(&["self"]) }
    );
    assert_eq!(
        expression_context("{A.b.c"),
        ExpressionContext::Member { path: strings(&["A", "b"]) }
    );
    assert_eq!(expression_context("{x"), ExpressionContext::Expression);
    assert_eq!(expression_context("{x}"), ExpressionContext::Expression);
    assert_eq!(expression_context("a.b"), ExpressionContext::Member { path: strings(&["a"]) });
}

#[test]
fn snippets_collapse_whitespace() {
    assert_eq!(snippet("a   b\n c", Span { start: 0, end: 100 }), "a b c");
    assert_eq!(snippet("h\u{e9}llo", Span { start: 2, end: 3 }), "");
    assert_eq!(snippet("abc", Span { start: 2, end: 1 }), "");
    assert_eq!(snippet("abc def", Span { start: 4, end: 7 }), "def");
}

#[test]
fn a_span_widens_to_whole_lines() {
    assert_eq!(line_span("ab\ncd\nef", Span { start: 4, end: 4 }), Span { start: 3, end: 6 });
    assert_eq!(line_span("ab\ncd", Span { start: 3, end: 99 }), Span { start: 3, end: 5 });
    assert_eq!(line_span("ab\ncd\n", Span { start: 0, end: 1 }), Span { start: 0, end: 3 });
}

#[test]
fn organized_imports_are_rendered_like_the_formatter_writes_them() {
    assert_eq!(render_from("./x.pi", "import", &strings(&["A", "B"]), false, 4, 80), "from ./x import A, B");
    assert_eq!(
        render_from("./x", "import", &strings(&["A", "B", "C"]), false, 4, 80),
        "from ./x import\n    A,\n    B,\n    C"
    );
    assert_eq!(render_from("./x", "export", &Vec::new(), true, 4, 80), "from ./x export *");
    assert_eq!(render_from("./x", "import", &Vec::new(), false, 4, 80), "from ./x import");
    assert_eq!(
        render_from("./x", "import", &strings(&["Alpha", "Beta"]), false, 2, 20),
        "from ./x import\n  Alpha,\n  Beta"
    );
}

#[test]
fn additions_land_after_the_content_of_a_declaration() {
    assert_eq!(body_indent("anchor A:\n\n  x: 1\n", TextRange { start: 0, end: 100 }), 2);
    assert_eq!(body_indent("anchor A:\n", TextRange { start: 0, end: 10 }), 4);
    assert_eq!(body_indent("a:\nb", TextRange { start: 0, end: 4 }), 4);
    let text = "anchor A:\n    x: 1\n\n\nb: 2\n";
    assert_eq!(end_of_content(text, TextRange { start: 0, end: 21 }), 19);
    assert_eq!(end_of_content("a: 1", TextRange { start: 0, end: 4 }), 4);
}

fn specifier_typed(typed: &str, start: usize) -> Option<LineContext> {
    Some(LineContext::ModulePath { typed: typed.to_string(), start })
}

fn import_names(specifier: &str, listed: &[&str]) -> Option<LineContext> {
    Some(LineContext::ImportNames { specifier: specifier.to_string(), listed: strings(listed) })
}

#[test]
fn a_half_typed_import_line_is_read_from_its_text() {
    assert_eq!(import_line_context("from ./pa"), specifier_typed("./pa", 5));
    assert_eq!(import_line_context("  from   ./pa"), specifier_typed("./pa", 9));
    assert_eq!(import_line_context("from"), specifier_typed("", 4));
    assert_eq!(import_line_context("use @piton/"), specifier_typed("@piton/", 4));
    assert_eq!(import_line_context("use ./x "), Some(LineContext::Nothing));
    assert_eq!(import_line_context("from ./x "), Some(LineContext::ImportVerb));
    assert_eq!(import_line_context("from ./x imp"), Some(LineContext::Nothing));
    assert_eq!(import_line_context("from ./x import"), import_names("./x", &[]));
    assert_eq!(import_line_context("from ./x import A, B, C"), import_names("./x", &["A", "B"]));
    assert_eq!(import_line_context("from ./x import A, B,"), import_names("./x", &["A", "B"]));
    assert_eq!(import_line_context("from ./x export A as Z, "), import_names("./x", &["A"]));
    assert_eq!(import_line_context("from ./x importer"), Some(LineContext::Nothing));
    assert_eq!(import_line_context("fromage: 1"), None);
    assert_eq!(import_line_context("user: 1"), None);
    assert_eq!(import_line_context("anchor A:"), None);
}

#[test]
fn the_start_of_a_line_asks_for_a_key_or_a_declaration() {
    let declaration = |after_export, after_abstract| LineContext::Declaration { after_export, after_abstract };
    assert_eq!(line_start_context("", false), declaration(false, false));
    assert_eq!(line_start_context("anc", false), declaration(false, false));
    assert_eq!(line_start_context("export ", false), declaration(true, false));
    assert_eq!(line_start_context("export anc", false), declaration(true, false));
    assert_eq!(line_start_context("abstract ", false), declaration(false, true));
    assert_eq!(line_start_context("export abstract an", false), declaration(false, true));
    assert_eq!(line_start_context("    ti", false), LineContext::PropertyKey);
    assert_eq!(line_start_context("    ti", true), LineContext::Nothing);
    assert_eq!(line_start_context("    export ", false), LineContext::Nothing);
    assert_eq!(line_start_context("a b", false), LineContext::Nothing);
}

use piton::lsp::actions::{extends_rewrite, without};

#[test]
fn an_extends_list_is_rewritten_or_taken_out() {
    let text = "anchor Child extends A, B, C:\n    x: 1\n";
    let list = Some(Span { start: 21, end: 28 });
    assert_eq!(
        extends_rewrite(text, list, &strings(&["B", "C", "A"])),
        Some((Span { start: 21, end: 28 }, "B, C, A".to_string()))
    );
    assert_eq!(extends_rewrite(text, list, &Vec::new()), Some((Span { start: 12, end: 28 }, String::new())));
    assert_eq!(extends_rewrite(text, None, &strings(&["A"])), None);
    assert_eq!(extends_rewrite("A, B", Some(Span { start: 0, end: 4 }), &Vec::new()), None);
    assert_eq!(without(&strings(&["A", "B", "A", "C"]), "A"), strings(&["B", "C"]));
}
