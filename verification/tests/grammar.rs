use piton::docs::{
    core_reference, fluency_brief, framework_reference, language_reference, skill_document, AnchorDoc,
    FrameworkDoc, VarDoc, HEADER, LONG_INTRO, RULES, SYNTAX, WORKFLOW,
};
use piton::grammar::{
    generate, GeneratedFile, GrammarSource, Vocabulary, UNPUBLISHED_REPOSITORY, UNPUBLISHED_REV,
};

fn strings(words: &[&str]) -> Vec<String> {
    words.iter().map(|it| it.to_string()).collect()
}

/// The compiler's words, as its keyword tables list them.
fn vocabulary() -> Vocabulary {
    Vocabulary {
        declaration: strings(&["abstract", "anchor", "as", "export", "extends", "from", "import", "use"]),
        self_words: strings(&["self", "super", "this"]),
        literals: strings(&["false", "null", "true"]),
        types: strings(&["boolean", "complex", "dictionary", "list", "number", "string"]),
        framework: Vec::new(),
        sigils: Vec::new(),
    }
}

fn generated() -> Vec<GeneratedFile> {
    let vocabulary = vocabulary().with_framework(strings(&["agent", "skill"]), strings(&["@"]));
    generate(&vocabulary, &GrammarSource::default(), &Vec::new(), &Vec::new())
}

fn find<'a>(files: &'a [GeneratedFile], name: &str) -> &'a GeneratedFile {
    files.iter().find(|file| file.path.ends_with(name)).expect(name)
}

#[test]
fn every_json_file_parses() {
    for file in generated() {
        if file.path.ends_with(".json") {
            serde_json::from_str::<serde_json::Value>(&file.contents)
                .unwrap_or_else(|error| panic!("{}: {error}", file.path));
        }
    }
}

#[test]
fn every_editor_gets_something() {
    let files = generated();
    for editor in ["shared", "vscode", "zed", "jetbrains"] {
        assert!(
            files.iter().any(|file| file.path.starts_with(editor)),
            "no files generated for {editor}"
        );
    }
}

#[test]
fn framework_keywords_reach_the_grammars() {
    let files = generated();
    for name in ["shared/piton.tmLanguage.json", "vscode/syntaxes/piton.tmLanguage.json"] {
        assert!(find(&files, name).contents.contains("agent"), "{name} is missing framework keywords");
    }
}

#[test]
fn an_unpublished_grammar_names_no_real_host() {
    let files = generate(&vocabulary(), &GrammarSource::default(), &Vec::new(), &Vec::new());
    assert!(!GrammarSource::default().is_published());
    for file in &files {
        for line in file.contents.lines().filter(|line| line.contains("tree-sitter-piton.git")) {
            assert!(
                line.contains(UNPUBLISHED_REPOSITORY),
                "{} hard-codes a publishing host: {line}",
                file.path
            );
        }
    }
    let zed = find(&files, "zed/extension.toml");
    assert!(zed.contents.contains("NOT PUBLISHED"), "{}", zed.contents);
    assert!(zed.contents.contains("git remote add grammar"), "{}", zed.contents);
}

#[test]
fn the_grammar_source_reaches_every_file_that_fetches_it() {
    let source = GrammarSource {
        repository: "ssh://example.test/piton/tree-sitter-piton.git".to_string(),
        rev: "1234567890abcdef1234567890abcdef12345678".to_string(),
    };
    assert!(source.is_published());
    let files = generate(&vocabulary(), &source, &Vec::new(), &Vec::new());
    let zed = find(&files, "zed/extension.toml");
    assert!(zed.contents.contains(&source.repository), "zed/extension.toml is missing the remote");
    assert!(zed.contents.contains(&source.rev), "the Zed extension must pin a commit");
    assert!(!zed.contents.contains("NOT PUBLISHED"));
}

#[test]
fn a_half_published_source_is_not_published() {
    let source = GrammarSource { repository: "ssh://example.test/g.git".to_string(), rev: UNPUBLISHED_REV.to_string() };
    assert!(!source.is_published());
}

#[test]
fn files_from_the_other_generators_are_carried_in_order() {
    let tree_sitter = vec![GeneratedFile::new("tree-sitter/grammar.js", "module.exports = {}".to_string())];
    let classic = vec![
        GeneratedFile::new("vim/syntax/piton.vim", "syntax".to_string()),
        GeneratedFile::new("emacs/piton-mode.el", "mode".to_string()),
    ];
    let files = generate(&vocabulary(), &GrammarSource::default(), &tree_sitter, &classic);
    let paths: Vec<&str> = files.iter().map(|file| file.path.as_str()).collect();
    assert_eq!(&paths[..5], &[
        "shared/piton.tmLanguage.json",
        "shared/language-configuration.json",
        "tree-sitter/grammar.js",
        "vim/syntax/piton.vim",
        "emacs/piton-mode.el",
    ]);
    assert_eq!(paths.last(), Some(&"README.md"));
}

#[test]
fn framework_words_join_the_vocabulary_sorted_and_once() {
    let vocabulary = Vocabulary { framework: strings(&["skill"]), sigils: strings(&["#"]), ..vocabulary() }
        .with_framework(strings(&["agent", "skill", "agent"]), strings(&["@", "#"]));
    assert_eq!(vocabulary.framework, strings(&["agent", "skill"]));
    assert_eq!(vocabulary.sigils, strings(&["#", "@"]));
}

fn tools() -> FrameworkDoc {
    FrameworkDoc {
        name: "belay".to_string(),
        module: "@piton/belay".to_string(),
        sigils: strings(&["@", "#"]),
        anchors: vec![
            AnchorDoc {
                name: "Agent".to_string(),
                keyword: Some("agent".to_string()),
                is_abstract: true,
                doc: Some("Does work\non its own.".to_string()),
                properties: vec![("purpose".to_string(), Some("string".to_string())), ("notes".to_string(), None)],
            },
            AnchorDoc {
                name: "Base".to_string(),
                keyword: None,
                is_abstract: false,
                doc: None,
                properties: Vec::new(),
            },
        ],
        vars: vec![VarDoc { name: "defaults".to_string(), doc: None }],
    }
}

#[test]
fn a_framework_offers_the_keywords_of_its_anchors() {
    assert_eq!(tools().keywords(), strings(&["agent"]));
}

#[test]
fn the_framework_reference_lists_what_each_framework_contributes() {
    assert_eq!(framework_reference(&Vec::new()), "");
    let text = framework_reference(&vec![tools()]);
    assert_eq!(
        text,
        "## Frameworks\n\n\
         ### `@piton/belay` (framework `belay`)\n\n\
         `use @piton/belay` for its keywords, `from @piton/belay import ...` for its anchors.\n\n\
         Interpolation sigils: `@{}`, `#{}`\n\n\
         - **Agent** (abstract anchor) \u{2014} keyword `agent`: Does work on its own.\n\
         \x20 - `purpose:: string`\n\
         \x20 - `notes`\n\
         - **Base** (anchor)\n\
         - **defaults** (variable)\n\n"
    );
}

fn tables() -> (Vec<String>, Vec<String>, Vec<String>) {
    (strings(&["anchor", "export"]), strings(&["number", "string"]), strings(&["true", "null"]))
}

#[test]
fn the_reference_lists_the_compiler_tables() {
    let (reserved, types, literals) = tables();
    let core = core_reference(&reserved, &types, &literals);
    assert!(core.starts_with("## Syntax\n\n```piton\n// A comment. Comments are line-only.\n"));
    assert!(core.contains("myList:\n    - one\n    - two\n"));
    assert!(core.contains("## Reserved words\n\n`anchor`, `export`\n\n## Types\n\n`number`, `string`\n\nLiterals: `true`, `null`\n\n"));
    assert!(core.ends_with(RULES));
    assert_eq!(core, format!("## Syntax\n\n{SYNTAX}## Reserved words\n\n`anchor`, `export`\n\n## Types\n\n`number`, `string`\n\nLiterals: `true`, `null`\n\n{RULES}"));
}

#[test]
fn the_brief_and_the_reference_are_assembled_in_order() {
    let (reserved, types, literals) = tables();
    let docs = vec![tools()];
    let core = core_reference(&reserved, &types, &literals);
    let frameworks = framework_reference(&docs);
    assert_eq!(fluency_brief(&docs, &reserved, &types, &literals), format!("{HEADER}{core}{frameworks}{WORKFLOW}"));
    assert_eq!(
        language_reference(&Vec::new(), &reserved, &types, &literals),
        format!("# The Piton Language\n\n{LONG_INTRO}{core}")
    );
}

#[test]
fn the_skill_names_each_framework_keyword_once() {
    let (reserved, types, literals) = tables();
    let mut other = tools();
    other.anchors[1].keyword = Some("skill".to_string());
    let docs = vec![other, tools()];
    let skill = skill_document(&docs, &reserved, &types, &literals);
    assert!(skill.starts_with(
        "---\nname: piton\ndescription: Write, read, and compile Piton (.pi) source. Use when working with .pi files, piton.config.pi, anchors, or Piton frameworks. Also use for the `agent`, `skill` keywords.\n---\n\n"
    ));
    assert!(skill.ends_with(&fluency_brief(&docs, &reserved, &types, &literals)));
    let plain = skill_document(&Vec::new(), &reserved, &types, &literals);
    assert!(plain.starts_with("---\nname: piton\ndescription: Write, read, and compile Piton (.pi) source. Use when working with .pi files, piton.config.pi, anchors, or Piton frameworks.\n---\n\n# Piton fluency"));
}
