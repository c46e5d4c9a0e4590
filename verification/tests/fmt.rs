use piton::fmt::{
    anchor_head, first_misread, key_head, misread_source, ReadBack, comment, declaration_line, ends_sentence, fill, hold_together, import_lines, join,
    paragraph_width, prose_words, rewrap_step, sort_names, verbatim, with_line_endings, Piece,
    Printer, Rewrap, MAX_WIDTH,
};

fn strings(words: &[&str]) -> Vec<String> {
    words.iter().map(|it| it.to_string()).collect()
}

fn word(text: &str) -> Piece {
    Piece { space: false, text: text.to_string() }
}

fn gap(text: &str) -> Piece {
    Piece { space: true, text: text.to_string() }
}

#[test]
fn repeated_blank_lines_collapse_to_one() {
    let mut printer = Printer::new();
    printer.line(0, "a: 1");
    printer.blank();
    printer.blank();
    printer.blank();
    printer.line(0, "b: 2");
    assert_eq!(printer.finish(), "a: 1\n\nb: 2\n");
}

#[test]
fn nothing_blank_comes_before_the_first_line() {
    let mut printer = Printer::default();
    printer.blank();
    printer.line(0, "a");
    printer.blank();
    assert_eq!(printer.finish(), "a\n");
    assert_eq!(Printer::new().finish(), "");
}

#[test]
fn lines_indent_by_four_spaces_a_level() {
    let mut printer = Printer::new();
    printer.line(0, "anchor A:");
    printer.line(1, "name: Base");
    printer.line(2, "- one");
    printer.line(3, "");
    assert_eq!(printer.finish(), "anchor A:\n    name: Base\n        - one\n\n");
}

#[test]
fn unreadable_text_keeps_its_own_indentation() {
    let mut printer = Printer::new();
    printer.line(0, "anchor A:");
    printer.blank();
    printer.verbatim_lines("    x::bad: 1  \n  y\n");
    assert_eq!(printer.finish(), "anchor A:\n\n    x::bad: 1\n  y\n");
}

#[test]
fn declarations_carry_their_value_and_comments() {
    assert_eq!(
        declaration_line("x:: number:", "  42 ", &strings(&["// note"])),
        "x:: number: 42  // note"
    );
    assert_eq!(declaration_line("", "text", &Vec::new()), "text");
    assert_eq!(declaration_line("a:", "   ", &Vec::new()), "a:");
    let mut printer = Printer::new();
    printer.declaration(1, "a:", "1", &Vec::new(), &strings(&["// under"]));
    assert_eq!(printer.finish(), "    a: 1\n        // under\n");
}

#[test]
fn comments_get_one_space_after_the_slashes() {
    assert_eq!(comment("//comment"), "// comment");
    assert_eq!(comment("//   note  "), "// note");
    assert_eq!(comment("////"), "//");
    assert_eq!(comment("/// doc"), "// doc");
}

#[test]
fn sentences_end_before_their_closing_marks() {
    assert!(ends_sentence("One."));
    assert!(ends_sentence("Two!"));
    assert!(ends_sentence("Emphasis.*"));
    assert!(ends_sentence("(aside.)"));
    assert!(!ends_sentence("\"stop"));
    assert!(!ends_sentence("e.g"));
    assert!(!ends_sentence(""));
    assert!(!ends_sentence(")"));
}

#[test]
fn a_file_keeps_its_line_endings() {
    assert_eq!(with_line_endings("a\r\nb\r\n", "a\nb\n".to_string()), "a\r\nb\r\n");
    assert_eq!(with_line_endings("a\nb\n", "a\nb\n".to_string()), "a\nb\n");
    assert_eq!(with_line_endings("a\rb", "x\n".to_string()), "x\n");
}

#[test]
fn verbatim_text_starts_at_its_line_when_only_indentation_precedes_it() {
    let text = "anchor A:\n    x::bad: 1\n    y: 2\n";
    let start = text.find("x::bad").unwrap();
    let end = start + "x::bad: 1".len();
    assert_eq!(verbatim(text, start, end), "    x::bad: 1");
    let start = text.find(": 1").unwrap();
    assert_eq!(verbatim(text, start, end), ": 1");
}

#[test]
fn prose_fills_the_line_and_never_splits_an_overlong_word() {
    let words = strings(&["Short", "lines", "join", "up."]);
    let lines = fill(&words, paragraph_width(1));
    assert_eq!(lines, vec![(0, "Short lines join up.".to_string())]);
    let url = format!("https://example.com/{}", "x".repeat(80));
    let words = strings(&["see", &url, "now"]);
    let lines = fill(&words, 76);
    assert_eq!(lines, vec![(0, "see".to_string()), (1, url.clone()), (2, "now".to_string())]);
    let words = strings(&["aa", "bb", "cc"]);
    assert_eq!(fill(&words, 5), vec![(0, "aa bb".to_string()), (2, "cc".to_string())]);
    assert_eq!(join(&words), "aa bb cc");
    assert!(fill(&Vec::new(), 80).is_empty());
}

#[test]
fn the_width_counts_indentation() {
    assert_eq!(paragraph_width(0), MAX_WIDTH);
    assert_eq!(paragraph_width(3), 68);
    assert_eq!(paragraph_width(20), 0);
    assert_eq!(paragraph_width(25), 0);
}

#[test]
fn a_misread_break_holds_its_words_together() {
    let mut words = strings(&["alpha", "-", "beta"]);
    hold_together(&mut words, 1);
    assert_eq!(words, strings(&["alpha -", "beta"]));

    let mut words = strings(&["aa", "bb", "cc"]);
    let lines = fill(&words, 5);
    assert_eq!(rewrap_step(&mut words, 5, lines.clone(), Some(1)), Rewrap::Again);
    assert_eq!(words, strings(&["aa", "bb cc"]));
    let lines = fill(&words, 5);
    assert_eq!(rewrap_step(&mut words, 5, lines.clone(), Some(0)), Rewrap::AsWritten);
    assert_eq!(
        rewrap_step(&mut words, 5, lines, None),
        Rewrap::Filled(strings(&["aa", "bb cc"]))
    );
}

#[test]
fn prose_keeps_sentence_spacing_and_code_spans() {
    let pieces = vec![
        word("One."),
        gap("     "),
        word("Two!"),
        gap("   "),
        word("Three?"),
        gap(" "),
        word("Four."),
    ];
    assert_eq!(prose_words(&pieces), strings(&["One.  Two!  Three?", "Four."]));
    let pieces = vec![
        word("Run"),
        gap(" "),
        word("`a"),
        gap("    "),
        word("b`"),
        gap("   "),
        word("now"),
    ];
    assert_eq!(prose_words(&pieces), strings(&["Run", "`a    b`", "now"]));
    let pieces = vec![gap("  "), word("This"), gap(" "), word("is"), gap("  "), word("prose"), gap("   ")];
    assert_eq!(prose_words(&pieces), strings(&["This", "is", "prose"]));
    assert!(prose_words(&Vec::new()).is_empty());
}

#[test]
fn imports_sort_and_wrap() {
    assert_eq!(sort_names(&strings(&["B", "A"])), strings(&["A", "B"]));
    assert_eq!(sort_names(&strings(&["b", "A", "a", "B"])), strings(&["A", "a", "B", "b"]));

    let mut printer = Printer::new();
    printer.import(0, "./x", true, false, &strings(&["B", "A"]));
    assert_eq!(printer.finish(), "from ./x import A, B\n");

    let mut printer = Printer::new();
    printer.import(0, "./x", true, false, &strings(&["Charlie", "Alpha", "Bravo"]));
    assert_eq!(printer.finish(), "from ./x import\n    Alpha,\n    Bravo,\n    Charlie\n");

    let mut printer = Printer::new();
    printer.import(0, "./x", false, true, &Vec::new());
    assert_eq!(printer.finish(), "from ./x export *\n");

    let long = "A".repeat(40);
    let other = "B".repeat(40);
    let lines = import_lines(0, "./x", "import", &strings(&[&long, &other]));
    assert_eq!(lines.len(), 3);
    assert_eq!(lines[0], (0, "from ./x import".to_string()));
    assert_eq!(lines[1], (1, format!("{long},")));
    assert_eq!(lines[2], (1, other));
    assert_eq!(import_lines(1, "./y", "export", &Vec::new()), vec![(1, "from ./y export".to_string())]);
}

#[test]
fn anchor_heads_are_written_in_one_order() {
    let bases = strings(&["A", "B"]);
    assert_eq!(
        anchor_head(true, true, Some("anchor"), Some("Name"), Some(&bases), Some("kw")),
        "export abstract anchor Name extends A, B as kw:"
    );
    assert_eq!(anchor_head(false, false, Some("anchor"), Some("X"), None, None), "anchor X:");
    assert_eq!(anchor_head(false, false, Some("agent"), Some("Bot"), None, None), "agent Bot:");
    assert_eq!(anchor_head(false, false, None, None, None, None), ":");
}

#[test]
fn key_heads_keep_each_constraint_trimmed() {
    assert_eq!(key_head("name", &strings(&[" T ", "U"]), true), "name:: T:: U:");
    assert_eq!(key_head("shape", &strings(&["T"]), false), "shape:: T");
    assert_eq!(key_head("plain", &Vec::new(), true), "plain:");
}

fn read_back(start: usize, end: usize, words: Option<&str>) -> ReadBack {
    ReadBack { start, end, words: words.map(|it| it.to_string()) }
}

#[test]
fn filled_lines_are_read_back_under_a_key() {
    let lines = strings(&["a b", "- c", "é"]);
    let (source, starts) = misread_source(&lines);
    assert_eq!(source, "k:\n    a b\n    - c\n    é\n");
    assert_eq!(starts, vec![7, 15, 23]);
    let all_prose = vec![
        read_back(7, 11, Some("a b")),
        read_back(15, 19, Some("- c")),
        read_back(23, 26, Some("é")),
    ];
    assert_eq!(first_misread(&lines, &starts, &all_prose), None);
    let list_item = vec![
        read_back(7, 11, Some("a b")),
        read_back(15, 19, None),
        read_back(23, 26, Some("é")),
    ];
    assert_eq!(first_misread(&lines, &starts, &list_item), Some(1));
    let runs_on = vec![read_back(7, 19, Some("a b"))];
    assert_eq!(first_misread(&lines, &starts, &runs_on), Some(0));
    let first_wins = vec![read_back(7, 11, Some("a b")), read_back(7, 11, Some("x"))];
    assert_eq!(first_misread(&strings(&["a b"]), &vec![7], &first_wins), None);
    assert_eq!(first_misread(&Vec::new(), &Vec::new(), &Vec::new()), None);
}
