use piton::lsp::convert::{offset_to_position, position_to_offset, span_to_range, Position, Span};
use piton::lsp::diff::{line_edits, TextEdit};
use piton::lsp::features::{
    context, enclosing_key, in_comment, in_string, indent_width, replace_start, verbatim_at,
    Context,
};
use piton::lsp::line_index::{LineIndex, TextRange};

/// Apply edits the way an editor does, last first.
fn apply(text: &str, mut edits: Vec<TextEdit>) -> String {
    let mut out = text.to_string();
    edits.sort_by_key(|edit| std::cmp::Reverse((edit.range.start.line, edit.range.start.character)));
    for edit in edits {
        let index = LineIndex::new(&out);
        let start = index.offset(edit.range.start) as usize;
        let end = index.offset(edit.range.end) as usize;
        out.replace_range(start..end, &edit.new_text);
    }
    out
}

fn pos(line: u32, character: u32) -> Position {
    Position { line, character }
}

// ---- converting positions ------------------------------------------------------------

#[test]
fn positions_count_utf16_units() {
    let text = "anchor A:\n    note: \u{201c}quoted\u{201d} and \u{1F600}\n";
    let end_of_line = text.rfind('\n').expect("trailing newline");
    let position = offset_to_position(text, end_of_line);
    assert_eq!(position.line, 1);
    assert_eq!(position.character, 25);
}

#[test]
fn offsets_round_trip() {
    let text = "one\ntwo\u{2014}dash\nthree\n";
    for offset in 0..text.len() {
        if !text.is_char_boundary(offset) {
            continue;
        }
        let position = offset_to_position(text, offset);
        assert_eq!(position_to_offset(text, position), offset, "at {offset}");
    }
}

#[test]
fn out_of_range_positions_clamp() {
    let text = "a\nb\n";
    assert_eq!(position_to_offset(text, pos(99, 99)), text.len());
}

#[test]
fn a_column_past_the_end_of_its_line_is_the_end_of_that_line() {
    let text = "ab\ncd\n";
    assert_eq!(position_to_offset(text, pos(0, 10)), 2);
    assert_eq!(position_to_offset(text, pos(1, 1)), 4);
    assert_eq!(offset_to_position(text, 100), pos(2, 0));
}

#[test]
fn a_backwards_span_is_read_as_empty() {
    let text = "ab\ncd\n";
    let range = span_to_range(text, Span { start: 4, end: 1 });
    assert_eq!(range.start, pos(1, 1));
    assert_eq!(range.end, pos(1, 1));
    let range = span_to_range(text, Span { start: 1, end: 4 });
    assert_eq!(range.start, pos(0, 1));
    assert_eq!(range.end, pos(1, 1));
}

// ---- the line index ----------------------------------------------------------------

#[test]
fn the_index_agrees_with_the_direct_conversion() {
    let text = "anchor A:\n    n\u{e9}te: \u{201c}q\u{201d} \u{1F600}!\n\nlast";
    let index = LineIndex::new(text);
    for offset in 0..=text.len() {
        if !text.is_char_boundary(offset) {
            continue;
        }
        let position = index.position(offset as u32);
        assert_eq!(position, offset_to_position(text, offset), "at {offset}");
        assert_eq!(index.offset(position) as usize, offset, "at {offset}");
    }
}

#[test]
fn the_index_reads_a_column_past_the_line_as_the_next_line() {
    let text = "ab\ncd\n";
    let index = LineIndex::new(text);
    assert_eq!(index.offset(pos(0, 10)), 3);
    assert_eq!(index.offset(pos(1, 10)), 6);
    assert_eq!(index.offset(pos(2, 0)), 6);
    assert_eq!(index.offset(pos(7, 0)), 6);
    // A position inside a surrogate pair lands after the character.
    let index = LineIndex::new("\u{1F600}x");
    assert_eq!(index.offset(pos(0, 1)), 4);
}

#[test]
fn the_index_covers_the_whole_text() {
    let index = LineIndex::new("a\nbc");
    let range = index.full_range();
    assert_eq!(range.start, pos(0, 0));
    assert_eq!(range.end, pos(1, 2));
    let range = index.range(TextRange { start: 1, end: 3 });
    assert_eq!(range.start, pos(0, 1));
    assert_eq!(range.end, pos(1, 1));
    assert_eq!(index.position(99), pos(1, 2));
    let empty = LineIndex::new("");
    assert_eq!(empty.full_range().end, pos(0, 0));
}

// ---- whole-line edits ----------------------------------------------------------------

#[test]
fn identical_texts_need_no_edits() {
    assert!(line_edits("a\nb\n", "a\nb\n").is_empty());
    assert!(line_edits("", "").is_empty());
}

#[test]
fn only_the_lines_that_changed_are_touched() {
    let old = "one\ntwo\nthree\nfour\nfive\n";
    let new = "one\nTWO\nthree\nfour\nFIVE\n";
    let edits = line_edits(old, new);
    assert_eq!(edits.len(), 2, "{edits:?}");
    assert_eq!(edits[0].range.start.line, 1);
    assert_eq!(edits[1].range.start.line, 4);
    assert_eq!(apply(old, edits), new);
}

#[test]
fn insertions_deletions_and_a_missing_final_newline_all_apply() {
    for (old, new) in [
        ("a\nb\nc\n", "a\nc\n"),
        ("a\nc\n", "a\nb\nc\n"),
        ("a\nb", "a\nb\n"),
        ("a\nb\n", "a\nb"),
        ("", "x\n"),
        ("x\n", ""),
        ("anchor A:\n  name: v\n  other: w", "anchor A:\n    name: v\n    other: w\n"),
        ("h\u{e9}llo\nw\u{f6}rld", "h\u{e9}llo\nworld\n"),
    ] {
        assert_eq!(apply(old, line_edits(old, new)), new, "{old:?} -> {new:?}");
    }
}

#[test]
fn an_edit_covers_whole_lines_and_carries_the_new_ones() {
    let edits = line_edits("a\nb\nc\n", "a\nx\ny\nc\n");
    assert_eq!(edits.len(), 1);
    assert_eq!(edits[0].range.start, pos(1, 0));
    assert_eq!(edits[0].range.end, pos(2, 0));
    assert_eq!(edits[0].new_text, "x\ny\n");
    // The last line has no break: its edit ends at the end of the text.
    let edits = line_edits("a\nb\u{e9}", "a\nc");
    assert_eq!(edits.len(), 1);
    assert_eq!(edits[0].range.start, pos(1, 0));
    assert_eq!(edits[0].range.end, pos(1, 2));
}

// ---- classifying the line ------------------------------------------------------------

fn value(key: Option<&str>) -> Context {
    Context::Value { key: key.map(|it| it.to_string()) }
}

fn expression(sigil: &'static str, member_of: Option<&str>) -> Context {
    Context::Expression { sigil, member_of: member_of.map(|it| it.to_string()) }
}

#[test]
fn the_head_of_an_unindented_line_declares() {
    assert_eq!(context(""), Context::Declaration { exported: false, is_abstract: false });
    assert_eq!(context("export "), Context::Declaration { exported: true, is_abstract: false });
    assert_eq!(
        context("export abstract "),
        Context::Declaration { exported: true, is_abstract: true }
    );
    // The word being typed is what to complete, not something already said.
    assert_eq!(context("expo"), Context::Declaration { exported: false, is_abstract: false });
    // Past the declaration keyword comes a name, which is the author's.
    assert_eq!(context("anchor "), Context::Nothing);
}

#[test]
fn a_declaration_head_knows_its_clauses() {
    assert_eq!(context("anchor A extends "), Context::Bases);
    assert_eq!(context("anchor A extends Ba"), Context::Bases);
    // `as` names a keyword the author is inventing.
    assert_eq!(context("anchor A extends B as "), Context::Nothing);
    // `extends` inside a word is not the clause.
    assert_eq!(context("anchor Bases "), Context::Nothing);
}

#[test]
fn imports_complete_by_part() {
    assert_eq!(context("use "), Context::ModulePath);
    assert_eq!(context("use ./oper"), Context::ModulePath);
    assert_eq!(context("from ./x"), Context::ModulePath);
    assert_eq!(context("from ./x "), Context::ImportDirection);
    assert_eq!(context("from ./x imp"), Context::ImportDirection);
    assert_eq!(context("from ./x import "), Context::ImportName { module: "./x".to_string() });
    assert_eq!(context("from ./x export Na"), Context::ImportName { module: "./x".to_string() });
}

#[test]
fn a_key_takes_the_first_colon_and_the_constraints_take_the_rest() {
    assert_eq!(context("    ti"), Context::Body);
    // Nothing written after the colon is nothing to complete on.
    assert_eq!(context("    title:"), Context::Nothing);
    assert_eq!(context("    title: "), Context::Nothing);
    assert_eq!(context("    title: t"), value(Some("title")));
    assert_eq!(context("    name:: "), Context::TypeConstraint);
    assert_eq!(context("    name:: str"), Context::TypeConstraint);
    assert_eq!(context("    name:: string: "), Context::Nothing);
    assert_eq!(context("    name:: string: n"), value(Some("name")));
    // Constraints chain, and the state flips on every colon.
    assert_eq!(context("    p:: dictionary:: "), Context::TypeConstraint);
    assert_eq!(context("    p:: dictionary:: null: nu"), value(Some("p")));
}

#[test]
fn a_list_item_holds_a_value() {
    assert_eq!(context("    - t"), value(None));
    assert_eq!(context("    ++ t"), value(None));
    // An empty item proposes nothing, like an empty value.
    assert_eq!(context("    - "), Context::Nothing);
}

#[test]
fn an_interpolation_knows_its_sigil() {
    assert_eq!(context("    a: {x"), expression("{", None));
    assert_eq!(context("    a: @{"), expression("@{", None));
    assert_eq!(context("    a: ${self.na"), expression("${", Some("self")));
    assert_eq!(context("    a: {A.b.c"), expression("{", Some("A.b")));
    // A closed interpolation is behind the cursor, not around it.
    assert_eq!(context("    a: {x} and "), Context::Nothing);
}

#[test]
fn a_string_has_nothing_to_complete() {
    // A `.` typed in the middle of a string has nothing to complete on,
    // because a string has no members.
    assert_eq!(context(r#"    a: ${"a sentence."#), Context::Nothing);
    assert_eq!(context(r#"    a: ${"in a string" + "#), expression("${", None));
    assert!(in_string(r#""open"#));
    assert!(!in_string(r#""closed""#));
    assert!(in_string(r#""an escaped \" quote"#));
}

#[test]
fn prose_is_written_rather_than_completed() {
    // A value that has become a sentence is not a name being completed.
    assert_eq!(context("    a: the quick brown"), Context::Nothing);
    assert_eq!(context("    a: The end."), Context::Nothing);
    assert_eq!(context("    a: tru"), value(Some("a")));
    // And neither is a line of prose inside a body.
    assert_eq!(context("    the quick brown"), Context::Nothing);
}

#[test]
fn a_comment_has_nothing_to_complete() {
    assert_eq!(context("    // a note"), Context::Nothing);
    assert_eq!(context("a: see https://example.com/"), Context::Nothing);
    // A `//` that does not follow whitespace is not a comment, so the line is
    // still a value -- and a URL is prose, so there is nothing to offer.
    assert!(!in_comment("a: see https://example.com"));
}

#[test]
fn escape_blocks_are_not_piton() {
    // A code fence is just text, so it isn't verbatim.
    let fenced = "a:\n    ```json\n    { \"k\": 1 }\n";
    assert!(!verbatim_at(fenced, fenced.len()));

    let escaped = "a:\n\\\\\\\\\nliteral {text}\n";
    assert!(verbatim_at(escaped, escaped.len()));
    let unescaped = "a:\n\\\\\\\\\nliteral\n\\\\\\\\\n";
    assert!(!verbatim_at(unescaped, unescaped.len()));
}

#[test]
fn a_shorter_run_inside_an_escape_block_does_not_close_it() {
    let text = "a:\n\\\\\\\\\n\\\\\nstill inside\n";
    assert!(verbatim_at(text, text.len()));
    let line = text.find("still").unwrap();
    assert!(verbatim_at(text, line));
    assert!(!verbatim_at(text, 0));
}

#[test]
fn keys_and_sigils_are_told_apart_from_names() {
    assert_eq!(context("{x: 1"), expression("{", None));
    assert_eq!(context("[a]: b"), Context::Nothing);
    assert_eq!(context("    $x: y"), Context::Nothing);
    assert_eq!(context("anchor A as kind"), Context::Nothing);
    assert_eq!(context("export anchor"), Context::Declaration { exported: true, is_abstract: false });
    assert_eq!(context("abstract abstract "), Context::Declaration { exported: false, is_abstract: true });
    assert_eq!(context("    a: #{x.y.z"), expression("#{", Some("x.y")));
    assert_eq!(context("    a: {config.foo-bar.q"), expression("{", Some("config.foo-bar")));
}

#[test]
fn a_key_belongs_to_the_first_less_indented_line_above() {
    let text = "frameworks:\n    - one\n\n    - two\n";
    let line = text.find("    - two").unwrap();
    assert_eq!(enclosing_key(text, line), Some(("frameworks".to_string(), 0)));
    let nested = "a:\n    inner:\n        - x\n";
    let line = nested.find("        - x").unwrap();
    assert_eq!(enclosing_key(nested, line), Some(("inner".to_string(), 7)));
    // The line that decides need not be a key.
    let prose = "Some prose\n    - x\n";
    assert_eq!(enclosing_key(prose, prose.find("    - x").unwrap()), None);
    assert_eq!(enclosing_key("a: 1\n", 0), None);
    assert_eq!(indent_width("  \tx  "), 3);
    assert_eq!(indent_width("x"), 0);
}

#[test]
fn an_edit_replaces_the_word_being_typed() {
    assert_eq!(replace_start(&expression("{", Some("self")), "a: {self.na", 11), 9);
    assert_eq!(replace_start(&Context::ModulePath, "use @piton/be", 13), 4);
    assert_eq!(replace_start(&Context::ImportName { module: "./x".to_string() }, "from ./x import *", 17), 16);
    assert_eq!(replace_start(&value(None), "    - nu", 8), 6);
    assert_eq!(replace_start(&value(None), "    -nu", 7), 5);
    assert_eq!(replace_start(&value(Some("a")), "a: @An", 6), 3);
    assert_eq!(replace_start(&value(Some("a")), "a: \u{e9}t\u{e9}", 8), 3);
}

// ---- rewrites held by the editor -----------------------------------------------------

use piton::lsp::convert::Range;
use piton::lsp::refactor::{rebase_file, Rewrite};
use piton::lsp::server::{has_news, watched_reaction, Debounce, FileChange, Reaction};

fn rewrite(line: u32, start: u32, end: u32, original: &str, new_text: &str) -> Rewrite {
    Rewrite {
        edit: TextEdit {
            range: Range { start: pos(line, start), end: pos(line, end) },
            new_text: new_text.to_string(),
        },
        original: original.to_string(),
    }
}

fn summary(edits: &[TextEdit]) -> Vec<(u32, u32, u32, String)> {
    edits
        .iter()
        .map(|it| (it.range.start.line, it.range.start.character, it.range.end.character, it.new_text.clone()))
        .collect()
}

#[test]
fn moves_asked_about_back_to_back_edit_only_what_is_new() {
    let first = rewrite(0, 5, 17, "./SelectTool", "./tools/SelectTool");
    let second = rewrite(1, 5, 23, "./DirectSelectTool", "./tools/DirectSelectTool");
    let edits = rebase_file(&Vec::new(), &vec![first.clone()]);
    assert_eq!(summary(&edits), vec![(0, 5, 17, "./tools/SelectTool".to_string())]);
    let edits = rebase_file(&vec![first.clone()], &vec![first.clone(), second.clone()]);
    assert_eq!(summary(&edits), vec![(1, 5, 23, "./tools/DirectSelectTool".to_string())]);
    // A rewrite no longer wanted is written back.
    let edits = rebase_file(&vec![first.clone()], &Vec::new());
    assert_eq!(summary(&edits), vec![(0, 5, 23, "./SelectTool".to_string())]);
}

#[test]
fn a_held_rewrite_shifts_the_ones_after_it_on_its_line() {
    let a = rewrite(0, 0, 3, "./a", "./xx/a");
    let b = rewrite(0, 6, 9, "./b", "./yy/b");
    let edits = rebase_file(&vec![a.clone()], &vec![a.clone(), b]);
    assert_eq!(summary(&edits), vec![(0, 9, 12, "./yy/b".to_string())]);
    assert!(rebase_file(&vec![a.clone()], &vec![a]).is_empty());
}

#[test]
fn a_burst_of_edits_recompiles_once() {
    let mut debounce = Debounce::new();
    let first = debounce.schedule();
    let second = debounce.schedule();
    let third = debounce.schedule();
    assert!(!debounce.is_current(first));
    assert!(!debounce.is_current(second));
    assert!(debounce.is_current(third));
}

#[test]
fn changes_on_disk_are_news_unless_already_heard() {
    assert_eq!(watched_reaction(true, FileChange::Changed, true), Reaction::ReloadProject);
    assert_eq!(watched_reaction(false, FileChange::Deleted, true), Reaction::Close);
    assert_eq!(watched_reaction(false, FileChange::Changed, true), Reaction::Nothing);
    assert_eq!(watched_reaction(false, FileChange::Changed, false), Reaction::Recompile);
    assert_eq!(watched_reaction(false, FileChange::Created, true), Reaction::Recompile);
    assert!(!has_news(&vec![Reaction::Nothing, Reaction::Nothing]));
    assert!(has_news(&vec![Reaction::Nothing, Reaction::Close]));
    assert!(!has_news(&Vec::new()));
}

use piton::lsp::features::qualified_alias;

#[test]
fn an_alias_says_where_an_ambiguous_name_came_from() {
    assert_eq!(qualified_alias("./lib/Type", "Type"), "LibType");
    assert_eq!(qualified_alias("./other", "Button"), "OtherButton");
    assert_eq!(qualified_alias("./lib/index.pi", "X"), "LibX");
    assert_eq!(qualified_alias("@piton/belay", "Agent"), "BelayAgent");
    assert_eq!(qualified_alias("./my-tools_x/", "A"), "MyToolsXA");
    assert_eq!(qualified_alias("./", "A"), "ImportedA");
    assert_eq!(qualified_alias("../up/a.pi.pi", "B"), "AB");
}

use piton::emit::value::{AnchorInfo, Value};
use piton::lsp::analysis::short;

fn s(text: &str) -> Value {
    Value::Str(text.to_string())
}

fn n(text: &str) -> Value {
    Value::Number(text.to_string())
}

#[test]
fn a_preview_fits_a_value_on_one_line() {
    let anchors =
        vec![AnchorInfo { name: "Button".to_string(), source_path: "ui/Button.pi".to_string(), properties: Vec::new() }];
    assert_eq!(short(&s("hello\nworld"), &anchors), "\"hello⏎world\"");
    assert_eq!(short(&s(&"a".repeat(50)), &anchors), format!("\"{}…\"", "a".repeat(48)));
    assert_eq!(short(&s(&"a".repeat(48)), &anchors), format!("\"{}\"", "a".repeat(48)));
    let ten: Vec<Value> = (1..=10).map(|i| n(&i.to_string())).collect();
    assert_eq!(short(&Value::List(ten), &anchors), "[1, 2, 3, 4, 5, 6, 7, 8, …]");
    let seven: Vec<(String, Value)> =
        ["a", "b", "c", "d", "e", "f", "g"].iter().map(|k| (k.to_string(), n("1"))).collect();
    assert_eq!(short(&Value::Dict(seven), &anchors), "{a: 1, b: 1, c: 1, d: 1, e: 1, f: 1, …}");
    assert_eq!(short(&Value::Anchor(0), &anchors), "{Button}");
    assert_eq!(short(&Value::Reference(0), &anchors), "@{Button}");
    assert_eq!(short(&Value::List(Vec::new()), &anchors), "[]");
    assert_eq!(short(&Value::Mixed(vec![Value::Null, Value::Bool(true)]), &anchors), "[null, true]");
    assert_eq!(
        short(&Value::Dict(vec![("a".to_string(), Value::List(vec![s("x")]))]), &anchors),
        "{a: [\"x\"]}"
    );
}

#[test]
fn a_preview_stops_when_its_budget_is_spent() {
    let none = Vec::new();
    let long = "x".repeat(60);
    let clipped = format!("\"{}…\"", "x".repeat(48));
    let five: Vec<Value> = (0..5).map(|_| s(&long)).collect();
    assert_eq!(
        short(&Value::List(five), &none),
        format!("[{clipped}, {clipped}, {clipped}, {clipped}, …]")
    );
    // A nested list is charged for its items and again for all it wrote.
    let inner: Vec<Value> = (0..3).map(|_| s(&long)).collect();
    assert_eq!(
        short(&Value::List(vec![Value::List(inner), s("y")]), &none),
        format!("[[{clipped}, {clipped}, {clipped}], …]")
    );
}

use piton::lsp::analysis::{
    binary_summary, block_summary, redundant_help, rule, step_rule, BinaryOp, MergeOp, Operand, Rule,
    StepSummary,
};

fn operand(kind: &str) -> Operand {
    let simple = matches!(kind, "string" | "number" | "boolean" | "null");
    Operand {
        kind: kind.to_string(),
        is_number: kind == "number",
        is_str: kind == "string",
        is_list: kind == "list",
        is_dict: kind == "dictionary",
        is_simple: simple,
        is_complex: matches!(kind, "list" | "dictionary" | "anchor"),
    }
}

fn hint(op: BinaryOp, left: &str, right: &str) -> String {
    rule(op, &operand(left), &operand(right)).hint
}

#[test]
fn each_pair_of_kinds_has_its_rule() {
    assert_eq!(hint(BinaryOp::Add, "number", "number"), "+ add");
    assert_eq!(hint(BinaryOp::Add, "list", "list"), "+ merge");
    assert_eq!(hint(BinaryOp::Add, "dictionary", "dictionary"), "+ shallow merge");
    assert_eq!(hint(BinaryOp::Add, "string", "number"), "+ join");
    assert_eq!(hint(BinaryOp::Add, "string", "list"), "+ implicit list");
    assert_eq!(hint(BinaryOp::Add, "anchor", "string"), "+ implicit list");
    assert_eq!(hint(BinaryOp::Add, "number", "boolean"), "+ ✗");
    assert_eq!(rule(BinaryOp::Add, &operand("number"), &operand("list")).explanation, "`+` cannot combine number and list");
    assert_eq!(hint(BinaryOp::Concat, "list", "list"), "++ concat");
    assert_eq!(hint(BinaryOp::Concat, "dictionary", "dictionary"), "++ deep merge");
    assert_eq!(hint(BinaryOp::Concat, "null", "string"), "++ join");
    assert_eq!(rule(BinaryOp::Concat, &operand("list"), &operand("dictionary")).explanation, "`++` cannot combine list and dictionary");
    assert_eq!(rule(BinaryOp::Other, &operand("list"), &operand("list")).explanation, "composition");
    assert_eq!(Rule::unknown(BinaryOp::Concat).hint, "++");
    assert_eq!(Rule::unknown(BinaryOp::Add).explanation, "`+`: what it does depends on the kinds of its inputs");
}

#[test]
fn a_block_line_reads_a_single_value_as_one_more_item() {
    let first = step_rule(MergeOp::Concat, None, &operand("string"), &operand("list"));
    assert_eq!(first.explanation, "`++` with nothing above it: the block starts as this value");
    assert_eq!(first.hint, "++");
    let list = operand("list");
    assert_eq!(step_rule(MergeOp::Merge, Some(&list), &operand("string"), &operand("list")).hint, "+ merge");
    assert_eq!(step_rule(MergeOp::Merge, Some(&operand("dictionary")), &operand("string"), &operand("list")).hint, "+ implicit list");
    assert_eq!(redundant_help(MergeOp::Concat), "combining with it leaves the value as it was");
}

#[test]
fn a_composition_hover_shows_each_input_and_the_result() {
    let both = binary_summary(
        "`+` adds the two numbers",
        "a",
        &Some("1".to_string()),
        "b",
        &Some("2".to_string()),
        &Some("3".to_string()),
    );
    assert_eq!(both, "**Composition** — `+` adds the two numbers\n\n1. `a` → 1\n2. `b` → 2\n\nResult:\n\n```\n3\n```");
    let refused = binary_summary("r", "a", &Some("1".to_string()), "b", &Some("[]".to_string()), &None);
    assert!(refused.ends_with("\n\n_These inputs do not combine under this operator; see the compiler's error._"));
    let unknown = binary_summary("r", "a", &None, "b", &Some("2".to_string()), &None);
    assert_eq!(unknown, "**Composition** — r\n\n1. `a`\n2. `b` → 2\n\n");
}

fn step(snippet: &str, hint: &str, before: Option<&str>, unchanged: bool) -> StepSummary {
    StepSummary {
        snippet: snippet.to_string(),
        rule: Rule::new("why", hint),
        before: before.map(|it| it.to_string()),
        operand: "x".to_string(),
        after: "y".to_string(),
        unchanged,
    }
}

#[test]
fn a_block_hover_numbers_its_lines_and_names_each_rule_once() {
    let steps = vec![
        step("+ a", "+", None, false),
        step("+ b", "+ merge", Some("p"), true),
        step("+ c", "+ merge", Some("q"), false),
    ];
    let (summary, hints, redundant) = block_summary("items", &steps, &Some("[a, b, c]".to_string()));
    assert_eq!(
        summary,
        "**Composition** — `items` is built from top to bottom: each `+` or `++` line combines everything above it with its own value.\n\n1. `+ a` — why\n   this line: x\n2. `+ b` — why\n   above: p · this line: x → y\n3. `+ c` — why\n   above: q · this line: x → y\n\nResult:\n\n```\n[a, b, c]\n```"
    );
    assert_eq!(hints, "+, + merge");
    assert_eq!(redundant, vec![1]);
    let many: Vec<StepSummary> = (0..12).map(|_| step("+ z", "+", None, false)).collect();
    let (summary, hints, redundant) = block_summary("n", &many, &None);
    assert!(summary.contains("\n10. `+ z` — why\n") && summary.ends_with("12. `+ z` — why\n   this line: x\n"));
    assert_eq!(hints, "+");
    assert!(redundant.is_empty());
}

use piton::lsp::tokens::{encode_tokens, RawToken, SemanticToken};

fn raw(start: usize, end: usize, kind: u32, modifiers: u32, priority: u8) -> RawToken {
    RawToken { start, end, kind, modifiers, priority }
}

fn token(delta_line: u32, delta_start: u32, length: u32, token_type: u32, token_modifiers_bitset: u32) -> SemanticToken {
    SemanticToken { delta_line, delta_start, length, token_type, token_modifiers_bitset }
}

#[test]
fn tokens_are_ordered_and_their_overlaps_dropped_before_encoding() {
    let text = "anchor Button:\n    label: OK\n";
    let found = vec![
        raw(19, 24, 3, 0, 0),
        raw(7, 13, 2, 1, 1),
        raw(0, 6, 1, 0, 0),
        raw(7, 13, 9, 0, 0),
        raw(26, 26, 5, 0, 0),
        raw(26, 28, 4, 0, 0),
    ];
    assert_eq!(
        encode_tokens(text, &found),
        vec![token(0, 0, 6, 1, 0), token(0, 7, 6, 9, 0), token(1, 4, 5, 3, 0), token(0, 7, 2, 4, 0)]
    );
    // At one start and priority, the shorter comes first; equal ones keep
    // the order they were found in.
    let ties = vec![raw(0, 6, 2, 0, 0), raw(0, 3, 1, 0, 0), raw(0, 3, 7, 0, 0)];
    assert_eq!(encode_tokens("anchor", &ties), vec![token(0, 0, 3, 1, 0)]);
}

#[test]
fn a_token_over_a_line_break_is_left_out_and_columns_count_utf16() {
    assert_eq!(encode_tokens("a\nb", &vec![raw(0, 3, 1, 0, 0)]), Vec::new());
    assert_eq!(encode_tokens("é😀x", &vec![raw(6, 7, 1, 2, 0)]), vec![token(0, 3, 1, 1, 2)]);
    // A multi-line token still moves the cursor past what it covers.
    assert_eq!(encode_tokens("ab\ncd", &vec![raw(0, 4, 1, 0, 0), raw(3, 5, 2, 0, 0)]), Vec::new());
    assert_eq!(encode_tokens("", &Vec::new()), Vec::new());
}

use piton::lsp::navigation::lens_titles;

#[test]
fn one_lens_per_place_names_what_was_written_from_it() {
    let starts = vec![5, 5, 9, 5, 9, 12];
    let labels: Vec<String> =
        ["json", "yaml", "json", "md", "yaml", "x"].iter().map(|it| it.to_string()).collect();
    assert_eq!(
        lens_titles(&starts, &labels),
        vec![(5, "json · yaml · +1".to_string()), (9, "json · yaml".to_string()), (12, "x".to_string())]
    );
    assert_eq!(lens_titles(&Vec::new(), &Vec::new()), Vec::new());
}

use piton::lsp::analysis::{clip_preview, embedded_anchors};

#[test]
fn a_preview_is_clipped_after_four_hundred_characters() {
    assert_eq!(clip_preview("# Title\n\ntext\n\n"), "# Title\n\ntext");
    let long = "é".repeat(401);
    assert_eq!(clip_preview(&long), format!("{}\n…", "é".repeat(400)));
    assert_eq!(clip_preview(&"a".repeat(400)), "a".repeat(400));
}

#[test]
fn an_anchor_copies_in_each_anchor_once_and_never_itself() {
    let values = vec![
        Value::Anchor(3),
        Value::List(vec![Value::Anchor(1), Value::Anchor(3), Value::Str("x".to_string())]),
        Value::Dict(vec![("k".to_string(), Value::Mixed(vec![Value::Anchor(0), Value::Anchor(2)]))]),
        Value::Reference(5),
    ];
    assert_eq!(embedded_anchors(&values, 0), vec![3, 1, 2]);
    assert_eq!(embedded_anchors(&values, 9), vec![3, 1, 0, 2]);
    assert_eq!(embedded_anchors(&Vec::new(), 0), Vec::<usize>::new());
}

use piton::lsp::analysis::{
    import_findings, import_message, use_findings, use_message, ImportFinding, ImportItem, UseFinding,
    UseItem,
};

fn item(name: &str, start: usize, resolves: bool, referenced: bool) -> ImportItem {
    ImportItem { name: name.to_string(), at: Span { start, end: start + name.len() }, resolves, referenced }
}

#[test]
fn an_import_list_reports_repeats_unused_names_and_breadth() {
    let items = vec![
        item("A", 10, true, true),
        item("B", 13, true, false),
        item("A", 16, true, true),
        item("Gone", 19, false, false),
        item("C", 25, true, false),
    ];
    let found = import_findings(&items);
    assert_eq!(
        found,
        vec![
            ImportFinding::Unused { name: "B".to_string(), at: Span { start: 13, end: 14 } },
            ImportFinding::Duplicate {
                name: "A".to_string(),
                at: Span { start: 16, end: 17 },
                first: Span { start: 10, end: 11 },
            },
            ImportFinding::Unused { name: "C".to_string(), at: Span { start: 25, end: 26 } },
            ImportFinding::Broad { unused: 2 },
        ]
    );
    assert_eq!(import_message(&found[0], "./x"), "`B` is imported but never referenced");
    assert_eq!(import_message(&found[1], "./x"), "`A` is imported more than once");
    assert_eq!(import_message(&found[3], "./x"), "`from ./x import` names 2 symbols this file does not reference");
    assert_eq!(
        import_message(&ImportFinding::Broad { unused: 1 }, "./y"),
        "`from ./y import` names 1 symbol this file does not reference"
    );
    // Nothing referenced at all is no broader than nothing used.
    let none = import_findings(&vec![item("A", 0, true, false)]);
    assert_eq!(none, vec![ImportFinding::Unused { name: "A".to_string(), at: Span { start: 0, end: 1 } }]);
}

#[test]
fn a_use_line_reports_repeats_and_keywords_nobody_references() {
    let at = |start: usize| Span { start, end: start + 5 };
    let uses = vec![
        UseItem { path: "./k".to_string(), at: at(0), referenced: true, declares_keywords: true },
        UseItem { path: "./k".to_string(), at: at(10), referenced: false, declares_keywords: true },
        UseItem { path: "./j".to_string(), at: at(20), referenced: false, declares_keywords: false },
        UseItem { path: "./m".to_string(), at: at(30), referenced: false, declares_keywords: true },
    ];
    let found = use_findings(&uses);
    assert_eq!(
        found,
        vec![
            UseFinding::Duplicate { path: "./k".to_string(), at: at(10), first: at(0) },
            UseFinding::Unused { path: "./j".to_string(), at: at(20), declares_keywords: false },
            UseFinding::Unused { path: "./m".to_string(), at: at(30), declares_keywords: true },
        ]
    );
    assert_eq!(use_message(&found[0]), "`use ./k` repeats an earlier declaration");
    assert_eq!(use_message(&found[1]), "`use ./j` imports keywords, and that module declares none");
    assert_eq!(use_message(&found[2]), "`use ./m` is unused; none of its keywords are referenced");
}

use piton::lsp::ambiguity::{ambiguity, bound_names, references, Binding, Occurrence};

fn binding(name: &str, start: usize, from: Option<&str>, symbol: usize) -> Binding {
    Binding {
        name: name.to_string(),
        span: Span { start, end: start + name.len() },
        from: from.map(|it| it.to_string()),
        symbol,
    }
}

#[test]
fn a_name_bound_to_different_things_is_ambiguous() {
    let all = vec![
        binding("Button", 40, Some("./b"), 2),
        binding("Card", 5, Some("./c"), 7),
        binding("Button", 12, Some("./a"), 1),
        binding("Card", 30, Some("./d"), 7),
    ];
    assert_eq!(bound_names(&all), vec!["Button".to_string(), "Card".to_string()]);
    // Importing the same thing twice is not ambiguous.
    assert!(ambiguity("Card", &all, Some(7)).is_none());
    assert!(ambiguity("Missing", &all, None).is_none());
    let report = ambiguity("Button", &all, Some(2)).expect("two meanings");
    assert_eq!(report.bindings, vec![2, 0]);
    assert_eq!(report.winner, 1);
    assert_eq!(
        report.message,
        "`Button` is ambiguous: it could be `Button` imported from `./a` or `Button` imported from `./b`; it resolves to `Button` imported from `./b`"
    );
    assert_eq!(report.labels, vec!["`Button` imported from `./a`".to_string(), "`Button` imported from `./b`".to_string()]);
    assert_eq!(
        report.shadowed,
        vec![(0, "`Button` imported from `./a` is hidden: `Button` in this file means `Button` imported from `./b`".to_string())]
    );
}

#[test]
fn a_declaration_wins_over_imports_and_is_never_hidden() {
    let all = vec![binding("X", 50, Some("./p"), 3), binding("X", 9, None, 4), binding("X", 20, Some("./q"), 5)];
    let report = ambiguity("X", &all, None).expect("three meanings");
    assert_eq!(report.bindings, vec![1, 2, 0]);
    assert_eq!(report.winner, 0);
    assert_eq!(report.labels[0], "`X` declared in this file");
    assert_eq!(report.shadowed.iter().map(|it| it.0).collect::<Vec<_>>(), vec![1, 2]);
    // With no declaration and nothing resolved, the last one written wins.
    let imports = vec![binding("Y", 3, Some("./a"), 1), binding("Y", 1, Some("./b"), 2)];
    assert_eq!(ambiguity("Y", &imports, None).expect("ambiguous").winner, 1);
    assert_eq!(ambiguity("Y", &imports, Some(2)).expect("ambiguous").winner, 0);
}

#[test]
fn references_inside_import_declarations_do_not_count() {
    let occurrence = |start: usize, is_reference: bool, text: &str, names_symbol: bool| Occurrence {
        span: Span { start, end: start + text.len() },
        is_reference,
        text: text.to_string(),
        names_symbol,
    };
    let occurrences = vec![
        occurrence(5, true, "A", true),
        occurrence(30, true, "A", true),
        occurrence(40, false, "A", true),
        occurrence(50, true, "B", true),
        occurrence(60, true, "A", false),
        occurrence(70, true, "A", true),
    ];
    let imports = vec![Span { start: 0, end: 20 }, Span { start: 70, end: 75 }];
    assert_eq!(references("A", &occurrences, &imports), vec![Span { start: 30, end: 31 }]);
    assert_eq!(references("A", &occurrences, &Vec::new()).len(), 3);
}

use piton::lsp::hover::{describe, HoverTarget};

fn texts_of(words: &[&str]) -> Vec<String> {
    words.iter().map(|it| it.to_string()).collect()
}

#[test]
fn a_hover_says_what_the_compiler_knows_of_a_symbol() {
    let anchor = HoverTarget::Anchor {
        exported: false,
        is_abstract: true,
        keyword: "agent".to_string(),
        name: "Critic".to_string(),
        alias: Some("critic".to_string()),
        summary: Some("Reads drafts.".to_string()),
        chain: texts_of(&["Base", "Root"]),
        declared_in: "agents/critic.pi".to_string(),
        rendered: None,
    };
    assert_eq!(
        describe(&anchor).unwrap(),
        "```piton\nabstract agent Critic as critic\n```\n\nReads drafts.\n\nInherits: Base → Root\n\nDeclared in `agents/critic.pi`\n\n_Not exported; only this file can use it._\n\n"
    );
    let variable = HoverTarget::Variable {
        exported: true,
        name: "limit".to_string(),
        constraints: texts_of(&["number", "null"]),
        rendered: Some("```\n3\n```".to_string()),
    };
    assert_eq!(describe(&variable).unwrap(), "```piton\nexport limit\n```\n\nConstrained to: number or null\n\n```\n3\n```");
    let property = HoverTarget::Property {
        name: "title".to_string(),
        anchor: "Card".to_string(),
        inherited_from: None,
        overrides: Some("Base".to_string()),
        constraints: Vec::new(),
        has_value: false,
        rendered: None,
    };
    assert_eq!(
        describe(&property).unwrap(),
        "`title` on `Card`\n\nOverrides `Base.title`\n\n_Abstract: an implementing anchor must define it._\n\n"
    );
    let key = HoverTarget::Key { anchor: "Card".to_string(), path: texts_of(&["style", "font", "size"]), rendered: None };
    assert_eq!(
        describe(&key).unwrap(),
        "`size` in `Card.style.font`\n\n_A key of that dictionary, not a property of `Card`._\n\n"
    );
    assert_eq!(describe(&HoverTarget::Key { anchor: "C".to_string(), path: Vec::new(), rendered: None }), None);
    assert_eq!(
        describe(&HoverTarget::Keyword { keyword: "agent".to_string(), anchor: None }).unwrap(),
        "Keyword `agent`\n\nNot in scope. Add a `use` declaration for the module that exports it."
    );
    assert_eq!(describe(&HoverTarget::Module { path: "./x.pi".to_string() }).unwrap(), "Module `./x.pi`");
    assert_eq!(describe(&HoverTarget::Unresolved { name: "Q".to_string() }).unwrap(), "`Q` is not in scope.");
}

use piton::lsp::folding::{folding_ranges, Fold};
use piton::lsp::hover::property_hint;

#[test]
fn structures_over_lines_and_runs_of_comments_fold() {
    let text = "anchor A:\n    x: 1\n    y: 2\n// one\n// two\n// three\n\n// lone\n";
    let structures = vec![Span { start: 0, end: 27 }, Span { start: 10, end: 15 }];
    let region = |start_line, end_line| Fold { start_line, end_line, comment: false };
    let comments = |start_line, end_line| Fold { start_line, end_line, comment: true };
    assert_eq!(
        folding_ranges(text, &structures, &vec![3, 4, 5, 7]),
        vec![region(0, 2), comments(3, 5)]
    );
    assert_eq!(folding_ranges("", &Vec::new(), &vec![1, 3, 4, 6, 7, 8]), vec![comments(3, 4), comments(6, 8)]);
    assert_eq!(folding_ranges("", &Vec::new(), &Vec::new()), Vec::new());
}

#[test]
fn a_property_hint_shows_its_kind_and_where_it_comes_from() {
    let some = |s: &str| Some(s.to_string());
    assert_eq!(property_hint(&some("string"), &some("Base"), &some("Other")), some(": string, from Base"));
    assert_eq!(property_hint(&None, &None, &some("Base")), some(": overrides Base"));
    assert_eq!(property_hint(&some("list"), &None, &None), some(": list"));
    assert_eq!(property_hint(&None, &None, &None), None);
}

use piton::lsp::ambiguity::{qualify_action, touching};

#[test]
fn qualifying_a_reference_aliases_the_import_and_rewrites_what_it_meant() {
    let refs = vec![Span { start: 60, end: 66 }, Span { start: 80, end: 86 }];
    assert_eq!(touching(&refs, 82, 82), Some(Span { start: 80, end: 86 }));
    assert_eq!(touching(&refs, 70, 75), None);
    let entry = Span { start: 20, end: 30 };
    let (title, edits) = qualify_action("Button", "./lib/ui", "Button Old", entry, true, &refs, refs[1]);
    assert_eq!(title, "Qualify `Button` as `UiButton` (the one from `./lib/ui`)");
    assert_eq!(
        edits,
        vec![
            (entry, "Button UiButton".to_string()),
            (refs[0], "UiButton".to_string()),
            (refs[1], "UiButton".to_string()),
        ]
    );
    let (_, edits) = qualify_action("Button", "./other", "Button", entry, false, &refs, refs[1]);
    assert_eq!(edits, vec![(entry, "Button OtherButton".to_string()), (refs[1], "OtherButton".to_string())]);
}

use piton::emit::Adapter;
use piton::lsp::hover::{mapping_note, resolves_to, summary as hover_summary};

#[test]
fn summary_takes_the_first_sentence_of_the_first_filled_line() {
    assert_eq!(
        hover_summary("\n   \n  Builds the site. Then deploys it.\nmore").as_deref(),
        Some("Builds the site.")
    );
    assert_eq!(hover_summary("No full stop here").as_deref(), Some("No full stop here"));
    assert_eq!(hover_summary("Ends with a stop.").as_deref(), Some("Ends with a stop."));
    assert_eq!(hover_summary(" \n\t\n"), None);
    assert_eq!(hover_summary(""), None);
}

#[test]
fn summary_clips_after_eighty_characters() {
    let long = "a".repeat(90);
    let expected = format!("{}\u{2026}", "a".repeat(80));
    assert_eq!(hover_summary(&long), Some(expected));
    let exact = "b".repeat(80);
    assert_eq!(hover_summary(&exact), Some(exact.clone()));
}

#[test]
fn mapping_note_lists_each_output_once() {
    let labels = vec!["out.json".to_string(), "docs.md".to_string(), "out.json".to_string()];
    assert_eq!(
        mapping_note(&labels).as_deref(),
        Some("Compiled to:\n- out.json\n- docs.md")
    );
    assert_eq!(mapping_note(&Vec::new()), None);
}

#[test]
fn resolves_to_fences_in_the_adapter_language() {
    assert_eq!(
        resolves_to(Adapter::Yaml, "a: 1"),
        "Resolves to (yaml):\n\n```yaml\na: 1\n```"
    );
    assert_eq!(
        resolves_to(Adapter::Markdown, "# Title"),
        "Resolves to (markdown):\n\n```markdown\n# Title\n```"
    );
    let long = "x".repeat(2100);
    let out = resolves_to(Adapter::Json, &long);
    assert!(out.starts_with("Resolves to (json):\n\n```json\n"));
    assert!(out.ends_with("\n```"));
    assert!(out.len() < 2100);
}

use piton::lsp::features::symbol_listed;

#[test]
fn workspace_symbols_match_in_order_ignoring_case() {
    assert!(symbol_listed("tl", "Tool", "shared/Tool.pi"));
    assert!(!symbol_listed("tl", "Wrench", "substrate/index.pi"));
    assert!(symbol_listed("serv", "WebServer", "site.pi"));
    assert!(symbol_listed("WSR", "WebServer", "site.pi"));
    assert!(!symbol_listed("client", "WebServer", "site.pi"));
    assert!(symbol_listed("", "Anything", "site.pi"));
    assert!(!symbol_listed("webserverx", "WebServer", "site.pi"));
}

#[test]
fn workspace_symbols_skip_package_modules() {
    assert!(!symbol_listed("", "Base", "@std/base.pi"));
    assert!(!symbol_listed("base", "Base", "@std/base.pi"));
}

use piton::lsp::imports::{import_path, insertion_point, package_import_path};

#[test]
fn new_imports_go_after_the_last_one() {
    let text = "from a import b\nx: 1\n";
    assert_eq!(insertion_point(text, 15), 16);
    assert_eq!(insertion_point(text, 0), 0);
    assert_eq!(insertion_point("use a", 5), 5);
    let wide = "from é import b\nrest";
    assert_eq!(insertion_point(wide, "from é import b".len()), "from é import b\n".len());
}

#[test]
fn package_modules_are_imported_by_package_name() {
    assert_eq!(
        package_import_path("ui", "buttons/index"),
        ("ui/buttons".to_string(), "in package ui".to_string())
    );
    assert_eq!(package_import_path("ui", "index").0, "ui");
    assert_eq!(package_import_path("ui", "").0, "ui");
    assert_eq!(package_import_path("ui", "a\\b").0, "ui/a/b");
    assert_eq!(package_import_path("ui", "x/index/index").0, "ui/x");
}

#[test]
fn import_paths_read_as_relative_paths() {
    assert_eq!(import_path("@std/base", "ignored"), "@std/base");
    assert_eq!(import_path("lib/a.pi", "lib/a"), "./lib/a");
    assert_eq!(import_path("../x.pi", "../x"), "../x");
    assert_eq!(import_path("dir/index.pi", "dir/index"), "./dir");
    assert_eq!(import_path("sub/m.pi", "sub\\m"), "./sub/m");
}

use piton::lsp::organize::{kept_import_names, organize_imports, ImportDecl, ListedName};

fn sp(start: usize, end: usize) -> Span {
    Span { start, end }
}

fn listed(name: &str, alias: Option<&str>, resolves: bool, referenced: bool) -> ListedName {
    ListedName { name: name.to_string(), alias: alias.map(|a| a.to_string()), resolves, referenced }
}

#[test]
fn kept_import_names_are_the_used_first_bindings_sorted() {
    let names = vec![
        listed("b", None, true, true),
        listed("x", Some("a"), true, true),
        listed("c", None, true, false),
        listed("d", None, false, true),
        listed("b", None, true, true),
    ];
    assert_eq!(kept_import_names(&names), vec!["b".to_string(), "x a".to_string()]);
}

#[test]
fn organizing_drops_duplicates_and_unused_names() {
    let text = "use styles\nuse styles\nfrom ./lib import b, a, c\nname: 1\n";
    let decls = vec![
        ImportDecl::Use { path: "styles".to_string(), span: sp(0, 10), referenced: true },
        ImportDecl::Use { path: "styles".to_string(), span: sp(11, 21), referenced: true },
        ImportDecl::From {
            path: "./lib".to_string(),
            span: sp(22, 47),
            names: vec![listed("b", None, true, true), listed("a", None, true, true), listed("c", None, true, false)],
        },
        ImportDecl::Other,
    ];
    assert_eq!(
        organize_imports(text, &decls, 4, 80),
        Some(vec![
            (sp(11, 22), String::new()),
            (sp(22, 48), "from ./lib import a, b\n".to_string()),
        ])
    );
}

#[test]
fn organizing_a_tidy_file_changes_nothing() {
    let text = "from ./lib import a, b\n";
    let decls = vec![ImportDecl::From {
        path: "./lib".to_string(),
        span: sp(0, 22),
        names: vec![listed("a", None, true, true), listed("b", None, true, true)],
    }];
    assert_eq!(organize_imports(text, &decls, 4, 80), None);
}

#[test]
fn organizing_drops_the_extension_and_empty_lists() {
    let text = "from ./lib.pi import a\nfrom ./other import z\n";
    let decls = vec![
        ImportDecl::From { path: "./lib.pi".to_string(), span: sp(0, 22), names: vec![listed("a", None, true, true)] },
        ImportDecl::From { path: "./other".to_string(), span: sp(23, 44), names: vec![listed("z", None, true, false)] },
    ];
    assert_eq!(
        organize_imports(text, &decls, 4, 80),
        Some(vec![
            (sp(0, 23), "from ./lib import a\n".to_string()),
            (sp(23, 45), String::new()),
        ])
    );
}

#[test]
fn an_unused_use_goes() {
    let text = "use styles";
    let decls = vec![ImportDecl::Use { path: "styles".to_string(), span: sp(0, 10), referenced: false }];
    assert_eq!(organize_imports(text, &decls, 4, 80), Some(vec![(sp(0, 10), String::new())]));
}

use piton::lsp::imports::list_removal;

fn tr(start: u32, end: u32) -> TextRange {
    TextRange { start, end }
}

#[test]
fn removing_items_keeps_the_rest_as_written() {
    // from ./x import a, b, c, d
    let items = vec![tr(16, 17), tr(19, 20), tr(22, 23), tr(25, 26)];
    let whole = tr(0, 26);
    assert_eq!(list_removal(&items, &vec![1], whole), vec![tr(19, 22)]);
    assert_eq!(list_removal(&items, &vec![3], whole), vec![tr(23, 26)]);
    assert_eq!(list_removal(&items, &vec![1, 2, 3], whole), vec![tr(17, 26)]);
    assert_eq!(list_removal(&items, &vec![0, 1], whole), vec![tr(16, 22)]);
    assert_eq!(list_removal(&items, &vec![2, 0, 2], whole), vec![tr(16, 19), tr(22, 25)]);
    assert_eq!(list_removal(&items, &vec![3, 2, 1, 0], whole), vec![whole]);
}

use piton::lsp::imports::{unused, ImportList, ImportedItem, Unused, UnusedKind, UseLine};

fn imported(local: &str, start: u32, exported: bool, used: bool) -> ImportedItem {
    ImportedItem { local: local.to_string(), range: tr(start, start + local.len() as u32), exported, used }
}

fn use_line(path: &str, resolves: bool, keywords: &[&str], range: TextRange) -> UseLine {
    UseLine { path: path.to_string(), resolves, keywords: keywords.iter().map(|k| k.to_string()).collect(), range }
}

#[test]
fn unused_names_items_and_use_lines() {
    let lists = vec![
        ImportList {
            resolves: true,
            items: vec![imported("a", 8, true, true), imported("b", 10, true, false), imported("c", 12, false, false)],
        },
        ImportList { resolves: false, items: vec![imported("z", 30, true, false)] },
    ];
    let uses = vec![
        use_line("styles", true, &["service"], tr(0, 10)),
        use_line("more", true, &["service", "page"], tr(11, 20)),
        use_line("missing", false, &[], tr(21, 32)),
    ];
    let wanted = vec!["service".to_string()];
    assert_eq!(
        unused(false, &lists, &uses, &wanted),
        vec![
            Unused {
                range: tr(10, 11),
                kind: UnusedKind::Item { decl: 0, item: 1 },
                label: "`b` is imported but never used".to_string(),
                title: "Remove unused import `b`".to_string(),
            },
            Unused {
                range: tr(0, 10),
                kind: UnusedKind::Use { index: 0 },
                label: "`use styles` brings in no keyword this file uses".to_string(),
                title: "Remove unused `use styles`".to_string(),
            },
        ]
    );
    assert_eq!(unused(true, &lists, &uses, &wanted), Vec::new());
}

#[test]
fn a_use_no_anchor_needs_is_unused_even_when_another_provides_the_same_keyword_first() {
    let uses = vec![use_line("first", true, &["page"], tr(0, 9)), use_line("second", true, &["page"], tr(10, 20))];
    let wanted = vec!["page".to_string()];
    let found = unused(false, &Vec::new(), &uses, &wanted);
    assert_eq!(found.len(), 1);
    assert_eq!(found[0].kind, UnusedKind::Use { index: 0 });
}

use piton::lsp::actions::{quick_actions, ActionKind, Declared, QuickAction, Unresolved};

fn insertion(line: u32, character: u32, text: &str) -> TextEdit {
    let p = Position { line, character };
    TextEdit { range: Range { start: p, end: p }, new_text: text.to_string() }
}

#[test]
fn a_range_on_an_unresolved_name_is_offered_imports_and_a_declaration() {
    let text = "a: Missing\n";
    let unresolved = vec![Unresolved {
        span: sp(3, 10),
        name: "Missing".to_string(),
        sources: vec!["./lib".to_string(), "@std/x".to_string()],
    }];
    let declared = vec![Declared { name: "a".to_string(), span: sp(0, 10), exported: false }];
    let actions = quick_actions(text, 0, 4, 4, &unresolved, &declared);
    assert_eq!(
        actions,
        vec![
            QuickAction {
                title: "Import `Missing` from `./lib`".to_string(),
                kind: ActionKind::QuickFix,
                edit: insertion(0, 0, "from ./lib import Missing\n"),
            },
            QuickAction {
                title: "Import `Missing` from `@std/x`".to_string(),
                kind: ActionKind::QuickFix,
                edit: insertion(0, 0, "from @std/x import Missing\n"),
            },
            QuickAction {
                title: "Create anchor `Missing`".to_string(),
                kind: ActionKind::QuickFix,
                edit: insertion(1, 0, "\nexport anchor Missing:\n    description:\n"),
            },
            QuickAction {
                title: "Export `a`".to_string(),
                kind: ActionKind::Refactor,
                edit: insertion(0, 0, "export "),
            },
        ]
    );
}

#[test]
fn a_range_elsewhere_is_offered_nothing() {
    let text = "a: Missing\nb: 1\n";
    let unresolved = vec![Unresolved { span: sp(3, 10), name: "Missing".to_string(), sources: vec![] }];
    let declared = vec![
        Declared { name: "a".to_string(), span: sp(0, 10), exported: false },
        Declared { name: "b".to_string(), span: sp(11, 15), exported: true },
    ];
    assert_eq!(quick_actions(text, 0, 12, 13, &unresolved, &declared), Vec::new());
}

use piton::lsp::actions::{conflict_fixes, Contest, ExtendsEntry, Supplier};

fn replacement(line: u32, from: u32, to: u32, text: &str) -> TextEdit {
    TextEdit {
        range: Range { start: Position { line, character: from }, end: Position { line, character: to } },
        new_text: text.to_string(),
    }
}

fn supplier(anchor: usize, name: &str, same_as_winner: bool, reachable: bool) -> Supplier {
    Supplier { anchor, name: name.to_string(), same_as_winner, reachable }
}

fn conflict_case() -> (String, Vec<ExtendsEntry>, Vec<String>, Vec<Contest>) {
    let text = "anchor C extends A, B:\n    x: 1\n".to_string();
    let explicit = vec![
        ExtendsEntry { written: "A".to_string(), span: sp(17, 18), anchor: Some(1), is_abstract: true },
        ExtendsEntry { written: "B".to_string(), span: sp(20, 21), anchor: Some(2), is_abstract: false },
    ];
    let own = vec!["x".to_string()];
    let contests = vec![
        Contest { property: "x".to_string(), suppliers: vec![supplier(1, "A", false, true), supplier(2, "B", true, true)] },
        Contest { property: "y".to_string(), suppliers: vec![supplier(1, "A", false, true), supplier(2, "B", true, true)] },
        Contest { property: "z".to_string(), suppliers: vec![supplier(2, "B", true, true)] },
    ];
    (text, explicit, own, contests)
}

#[test]
fn disagreeing_bases_are_offered_fixes_from_the_header_line() {
    let (text, explicit, own, contests) = conflict_case();
    let decl = sp(0, text.len());
    assert_eq!(
        conflict_fixes(&text, decl, 5, 5, 2, true, &explicit, &own, &contests, "    "),
        vec![
            QuickAction {
                title: "Stop extending `A`".to_string(),
                kind: ActionKind::QuickFix,
                edit: replacement(0, 17, 21, "B"),
            },
            QuickAction {
                title: "Move `A` last in `extends` so its `y` wins".to_string(),
                kind: ActionKind::QuickFix,
                edit: replacement(0, 17, 21, "B, A"),
            },
            QuickAction {
                title: "Take `y` from `A` (it currently comes from `B`)".to_string(),
                kind: ActionKind::QuickFix,
                edit: insertion(1, 0, "    y: {A.y}\n"),
            },
        ]
    );
}

#[test]
fn no_fixes_below_the_header_or_with_one_base() {
    let (text, explicit, own, contests) = conflict_case();
    let decl = sp(0, text.len());
    assert_eq!(conflict_fixes(&text, decl, 25, 25, 2, true, &explicit, &own, &contests, "    "), Vec::new());
    assert_eq!(conflict_fixes(&text, decl, 5, 5, 1, true, &explicit, &own, &contests, "    "), Vec::new());
    let quiet = conflict_fixes(&text, decl, 5, 5, 2, false, &explicit, &own, &contests, "    ");
    assert_eq!(quiet.len(), 2);
}

use piton::lsp::actions::property_indent;

#[test]
fn taken_properties_follow_the_body_indentation() {
    let text = "anchor C extends A, B:\n  x: 1\n";
    assert_eq!(property_indent(text, Some(25), 4), "  ");
    assert_eq!(property_indent(text, None, 4), "    ");
    assert_eq!(property_indent("anchor C: x\n", Some(10), 4), "    ");
    assert_eq!(property_indent("x\ny: 1\n", Some(2), 4), "    ");
}

use piton::lsp::tokens::{syntax_kinds, token_kinds, OccurrenceFacts, SyntaxClass, SyntaxToken, TargetFacts};

fn occ(start: usize, end: usize, definition: bool, target: TargetFacts) -> OccurrenceFacts {
    OccurrenceFacts { start, end, definition, target }
}

fn kinds_of(raw: &[RawToken]) -> Vec<(usize, usize, u32, u32, u8)> {
    raw.iter().map(|t| (t.start, t.end, t.kind, t.modifiers, t.priority)).collect()
}

#[test]
fn occurrences_are_classified_with_their_modifiers() {
    let occurrences = vec![
        occ(0, 4, true, TargetFacts::Anchor { is_abstract: true, exported: true, elsewhere: false, in_package: false }),
        occ(5, 9, false, TargetFacts::Anchor { is_abstract: false, exported: false, elsewhere: true, in_package: true }),
        occ(10, 12, false, TargetFacts::Property { inherited: true }),
        occ(13, 15, true, TargetFacts::Property { inherited: true }),
        occ(16, 18, true, TargetFacts::Key),
        occ(19, 21, false, TargetFacts::Variable { exported: true, elsewhere: true }),
        occ(22, 26, true, TargetFacts::Keyword { aliased: true, elsewhere: true, in_package: true }),
        occ(27, 31, false, TargetFacts::Keyword { aliased: false, elsewhere: true, in_package: true }),
        occ(32, 40, false, TargetFacts::Module { package: true }),
        occ(41, 45, false, TargetFacts::Unresolved),
    ];
    assert_eq!(
        kinds_of(&token_kinds(&occurrences)),
        vec![
            (0, 4, 0, 1 | 2 | 4 | 32, 1),
            (5, 9, 0, 64 | 8, 1),
            (10, 12, 1, 16, 1),
            (13, 15, 1, 1 | 2, 1),
            (16, 18, 1, 1 | 2, 1),
            (19, 21, 2, 32 | 64, 1),
            (22, 26, 3, 1 | 64 | 8, 1),
            (27, 31, 3, 0, 1),
            (32, 40, 8, 8, 1),
        ]
    );
}

#[test]
fn syntax_tokens_the_index_does_not_carry() {
    let tokens = vec![
        SyntaxToken { start: 0, end: 5, class: SyntaxClass::Comment },
        SyntaxToken { start: 6, end: 10, class: SyntaxClass::Other },
        SyntaxToken { start: 11, end: 17, class: SyntaxClass::Keyword },
        SyntaxToken { start: 18, end: 20, class: SyntaxClass::Number },
        SyntaxToken { start: 21, end: 23, class: SyntaxClass::Escape },
    ];
    assert_eq!(
        kinds_of(&syntax_kinds(&tokens)),
        vec![(0, 5, 4, 0, 5), (11, 17, 3, 0, 5), (18, 20, 6, 0, 5), (21, 23, 5, 0, 5)]
    );
}

use piton::lsp::unused::{unused_findings, AnchorFacts, ExportFacts, UnusedFinding, VariableFacts};

fn anchor_facts(name: &str, path: &str, config: bool, keyword_used: bool) -> AnchorFacts {
    AnchorFacts { name: name.to_string(), path: path.to_string(), span: sp(0, name.len()), config, keyword_used }
}

fn variable_facts(name: &str, path: &str, reached: bool, referenced: bool, exported: bool) -> VariableFacts {
    VariableFacts {
        name: name.to_string(),
        path: path.to_string(),
        span: sp(1, 2),
        config: false,
        module_reached: reached,
        referenced,
        exported,
    }
}

fn export_facts(name: &str, skipped: bool, resolves: bool, live: bool, elsewhere: bool) -> ExportFacts {
    ExportFacts {
        name: name.to_string(),
        path: "lib.pi".to_string(),
        span: sp(3, 4),
        skipped,
        resolves,
        live,
        imported_elsewhere: elsewhere,
    }
}

#[test]
fn unused_symbols_are_warned_about_in_order() {
    let anchors = vec![
        anchor_facts("Dead", "main.pi", false, false),
        anchor_facts("Base", "@std/base.pi", false, false),
        anchor_facts("Config", "piton.config.pi", true, false),
        anchor_facts("Tool", "tools.pi", false, true),
    ];
    let vars = vec![
        variable_facts("a", "main.pi", false, false, false),
        variable_facts("b", "main.pi", false, false, true),
        variable_facts("c", "main.pi", true, false, false),
        variable_facts("d", "main.pi", false, true, false),
    ];
    let exports = vec![
        export_facts("X", false, true, false, false),
        export_facts("Y", false, true, true, false),
        export_facts("Z", true, true, false, false),
        export_facts("W", false, false, false, false),
        export_facts("V", false, true, false, true),
    ];
    let found = unused_findings(&anchors, &vars, &exports);
    assert_eq!(
        found,
        vec![
            UnusedFinding {
                code: "unused-anchor".to_string(),
                message: "`Dead` is never referenced and does not contribute to the compiled result".to_string(),
                help: "reference it, extend it, or remove it; `piton reach` reports the same set".to_string(),
                path: "main.pi".to_string(),
                span: sp(0, 4),
            },
            UnusedFinding {
                code: "unused-variable".to_string(),
                message: "`a` is never referenced and its module contributes nothing to the compiled result".to_string(),
                help: "remove it, or reference it from a reached module".to_string(),
                path: "main.pi".to_string(),
                span: sp(1, 2),
            },
            UnusedFinding {
                code: "unused-export".to_string(),
                message: "`b` is never referenced and its module contributes nothing to the compiled result".to_string(),
                help: "remove it, or reference it from a reached module".to_string(),
                path: "main.pi".to_string(),
                span: sp(1, 2),
            },
            UnusedFinding {
                code: "unused-export".to_string(),
                message: "`X` is exported but nothing imports it".to_string(),
                help: "remove the export, or import the name where it is needed".to_string(),
                path: "lib.pi".to_string(),
                span: sp(3, 4),
            },
        ]
    );
}

use piton::lsp::actions::{code_actions, EditAction};

#[test]
fn the_actions_of_a_range_come_in_order_and_never_format() {
    let text = "from ./a import b\nx: {b}\n";
    let quick = vec![QuickAction {
        title: "Export `x`".to_string(),
        kind: ActionKind::Refactor,
        edit: insertion(1, 0, "export "),
    }];
    let qualify = vec![("Qualify `b`".to_string(), vec![(sp(16, 17), "b AB".to_string()), (sp(22, 23), "AB".to_string())])];
    let organize = Some(vec![(sp(0, 18), String::new())]);
    let actions = code_actions(text, quick, qualify, Vec::new(), organize);
    assert_eq!(
        actions,
        vec![
            EditAction { title: "Export `x`".to_string(), kind: ActionKind::Refactor, edits: vec![insertion(1, 0, "export ")] },
            EditAction {
                title: "Qualify `b`".to_string(),
                kind: ActionKind::QuickFix,
                edits: vec![replacement(0, 16, 17, "b AB"), replacement(1, 4, 5, "AB")],
            },
            EditAction {
                title: "Organize imports".to_string(),
                kind: ActionKind::OrganizeImports,
                edits: vec![TextEdit {
                    range: Range { start: Position { line: 0, character: 0 }, end: Position { line: 1, character: 0 } },
                    new_text: String::new(),
                }],
            },
        ]
    );
    assert!(actions.iter().all(|a| a.title != "Format this file"));
}

use piton::lsp::preview::{belay_preview, PlannedFile};

fn planned(target: &str, origin: &str, from_here: bool, path: &str, contents: &str) -> PlannedFile {
    PlannedFile {
        target: target.to_string(),
        origin: origin.to_string(),
        from_here,
        path: path.to_string(),
        contents: contents.to_string(),
    }
}

#[test]
fn a_belay_preview_shows_the_files_a_target_writes_from_here() {
    let files = vec![
        planned("docs", "Hammer", true, "out/hammer.md", "# Hammer"),
        planned("docs", "Wrench, Hammer", true, "out/all.md", "# All"),
        planned("docs", "Saw", true, "out/saw.md", "# Saw"),
        planned("site", "Hammer", true, "site/hammer.html", "<h1>"),
        planned("docs", "Hammer", false, "out/other.md", "# Other"),
    ];
    assert_eq!(
        belay_preview(&files, "docs", Some("Hammer")),
        Ok("<!-- out/hammer.md -->\n# Hammer\n\n<!-- out/all.md -->\n# All".to_string())
    );
    assert_eq!(
        belay_preview(&files, "docs", None),
        Ok("<!-- out/hammer.md -->\n# Hammer\n\n<!-- out/all.md -->\n# All\n\n<!-- out/saw.md -->\n# Saw".to_string())
    );
    assert_eq!(
        belay_preview(&files, "pdf", None),
        Err("the `pdf` target produces nothing from this construct".to_string())
    );
}

#[test]
fn positions_past_the_end_clamp_to_the_end() {
    assert_eq!(position_to_offset("a\nb\n", pos(99, 99)), 4);
    assert_eq!(position_to_offset("a\nb", pos(2, 0)), 3);
    assert_eq!(position_to_offset("a\nb\n", pos(1, 99)), 3);
}
