//! Installable editor extensions: VS Code, Zed, and JetBrains.
use vstd::prelude::*;

use crate::grammar::textmate::{grammar, grammar_for, language_configuration, LANGUAGE_CONFIGURATION};
use crate::grammar::{published, GeneratedFile, GrammarSource, Vocabulary, GRAMMAR_REMOTE_NAME};
use crate::path::{components, components_of};
use crate::text::{chars_eq, chars_of, push_str};

verus! {

/// The manifest IntelliJ reads when importing a TextMate bundle.
pub const TEXTMATE_BUNDLE_MANIFEST: &'static str = r#"{
  "name": "piton-textmate",
  "displayName": "Piton",
  "version": "0.1.0",
  "engines": { "vscode": "^1.85.0" },
  "contributes": {
    "languages": [
      {
        "id": "piton",
        "aliases": ["Piton"],
        "extensions": [".pi"],
        "configuration": "./language-configuration.json"
      }
    ],
    "grammars": [
      {
        "language": "piton",
        "scopeName": "source.piton",
        "path": "./piton.tmLanguage.json"
      }
    ]
  }
}
"#;

fn textmate_bundle_manifest() -> (text: String)
    ensures
        text@ == TEXTMATE_BUNDLE_MANIFEST@,
{
    String::from_str(TEXTMATE_BUNDLE_MANIFEST)
}

/// The VS Code extension manifest.
pub const VSCODE_PACKAGE: &'static str = r#"{
  "name": "piton",
  "displayName": "Piton",
  "description": "Syntax highlighting and language server support for the Piton language",
  "version": "0.1.0",
  "publisher": "piton-lang",
  "license": "MIT",
  "repository": { "type": "git", "url": "https://github.com/piton-lang/piton-rs.git" },
  "engines": { "vscode": "^1.85.0" },
  "categories": ["Programming Languages"],
  "main": "./src/extension.js",
  "activationEvents": ["onLanguage:piton", "workspaceContains:**/piton.config.pi"],
  "contributes": {
    "languages": [
      {
        "id": "piton",
        "aliases": ["Piton", "piton"],
        "extensions": [".pi"],
        "configuration": "./language-configuration.json"
      }
    ],
    "grammars": [
      {
        "language": "piton",
        "scopeName": "source.piton",
        "path": "./syntaxes/piton.tmLanguage.json"
      }
    ],
    "configuration": {
      "title": "Piton",
      "properties": {
        "piton.serverPath": {
          "type": "string",
          "default": "piton",
          "description": "Path to the piton executable. The extension runs `piton lsp`."
        },
        "piton.trace.server": {
          "type": "string",
          "enum": ["off", "messages", "verbose"],
          "default": "off",
          "description": "Trace the communication with the Piton language server."
        }
      }
    },
    "commands": [
      { "command": "piton.restartServer", "title": "Piton: Restart Language Server" },
      { "command": "piton.build", "title": "Piton: Build Project" }
    ]
  },
  "dependencies": { "vscode-languageclient": "^9.0.1" },
  "devDependencies": { "@types/vscode": "^1.85.0", "@vscode/vsce": "^3.0.0" },
  "scripts": { "package": "vsce package" }
}
"#;

fn vscode_package() -> (text: String)
    ensures
        text@ == VSCODE_PACKAGE@,
{
    String::from_str(VSCODE_PACKAGE)
}

/// A thin VS Code client: everything interesting happens in `piton lsp`.
pub const VSCODE_CLIENT: &'static str = r#"// Generated by `piton grammar`.
//
// A thin client: everything interesting happens in `piton lsp`.

const { workspace, window, commands } = require('vscode');
const { LanguageClient, TransportKind } = require('vscode-languageclient/node');

let client;

function serverOptions() {
  const command = workspace.getConfiguration('piton').get('serverPath', 'piton');
  const run = { command, args: ['lsp'], transport: TransportKind.stdio };
  return { run, debug: run };
}

function start() {
  client = new LanguageClient('piton', 'Piton Language Server', serverOptions(), {
    documentSelector: [{ scheme: 'file', language: 'piton' }],
    synchronize: {
      fileEvents: workspace.createFileSystemWatcher('**/*.pi'),
    },
  });
  return client.start();
}

async function activate(context) {
  context.subscriptions.push(
    commands.registerCommand('piton.restartServer', async () => {
      if (client) await client.stop();
      await start();
      window.showInformationMessage('Piton language server restarted.');
    }),
    commands.registerCommand('piton.build', async () => {
      const terminal = window.createTerminal('piton build');
      terminal.sendText('piton build');
      terminal.show();
    }),
  );
  await start();
}

async function deactivate() {
  if (client) await client.stop();
}

module.exports = { activate, deactivate };
"#;

fn vscode_client() -> (text: String)
    ensures
        text@ == VSCODE_CLIENT@,
{
    String::from_str(VSCODE_CLIENT)
}

/// How to build and install the VS Code extension.
pub const VSCODE_README: &'static str = r#"# Piton for VS Code

Generated by `piton grammar`. Works in VS Code, Cursor, and Windsurf.

```sh
npm install
npx vsce package
code --install-extension piton-0.1.0.vsix
```

The extension contributes the TextMate grammar and starts `piton lsp`. Point
`piton.serverPath` at the binary if it is not on `$PATH`.
"#;

fn vscode_readme() -> (text: String)
    ensures
        text@ == VSCODE_README@,
{
    String::from_str(VSCODE_README)
}

/// The Zed extension is a WebAssembly component; Zed builds it when installing.
pub const ZED_CARGO: &'static str = r#"# Generated by `piton grammar`.
#
# Its own workspace: this crate is built for wasm32-wasip1 by Zed, not by the
# Piton workspace it happens to live inside.
[workspace]

[package]
name = "zed_piton"
version = "0.1.0"
edition = "2021"
publish = false
license = "MIT"

[lib]
path = "src/lib.rs"
crate-type = ["cdylib"]

[dependencies]
zed_extension_api = "0.7"
"#;

fn zed_cargo() -> (text: String)
    ensures
        text@ == ZED_CARGO@,
{
    String::from_str(ZED_CARGO)
}

/// Tells Zed how to start the language server.
pub const ZED_EXTENSION: &'static str = r#"// Generated by `piton grammar`. Edit crates/piton-grammar instead.

use zed_extension_api::{self as zed, settings::LspSettings, Command, LanguageServerId, Result};

/// The binary that serves Piton, and the subcommand that starts the server.
const BINARY: &str = "piton";
const SUBCOMMAND: &str = "lsp";

struct PitonExtension;

impl zed::Extension for PitonExtension {
    fn new() -> Self {
        PitonExtension
    }

    fn language_server_command(
        &mut self,
        language_server_id: &LanguageServerId,
        worktree: &zed::Worktree,
    ) -> Result<Command> {
        // An explicit `lsp.piton.binary` in the user's settings wins.
        let settings = LspSettings::for_worktree(language_server_id.as_ref(), worktree)
            .ok()
            .and_then(|settings| settings.binary);
        if let Some(binary) = settings {
            if let Some(path) = binary.path {
                return Ok(Command {
                    command: path,
                    args: binary.arguments.unwrap_or_else(|| vec![SUBCOMMAND.to_string()]),
                    env: worktree.shell_env(),
                });
            }
        }

        let path = worktree.which(BINARY).ok_or_else(|| {
            format!(
                "could not find `{BINARY}` on $PATH. Build it with `cargo xtask install`, or set                  lsp.piton.binary.path in your Zed settings."
            )
        })?;

        Ok(Command {
            command: path,
            args: vec![SUBCOMMAND.to_string()],
            env: worktree.shell_env(),
        })
    }
}

zed::register_extension!(PitonExtension);
"#;

fn zed_extension() -> (text: String)
    ensures
        text@ == ZED_EXTENSION@,
{
    String::from_str(ZED_EXTENSION)
}

/// The language configuration Zed reads.
pub const ZED_LANGUAGE_CONFIG: &'static str = r#"# Generated by `piton grammar`.
name = "Piton"
grammar = "piton"
path_suffixes = ["pi"]
line_comments = ["// "]
autoclose_before = "}]),"
tab_size = 4
hard_tabs = false

# A line ending in `:` opens a block, so the next line starts indented. There is
# deliberately no decrease pattern: dedenting is the author's decision, and the
# editor should not undo it on the next keystroke.
increase_indent_pattern = ":\\s*(//.*)?$"

brackets = [
  { start = "{", end = "}", close = true, newline = false },
  { start = "[", end = "]", close = true, newline = false },
  { start = "(", end = ")", close = true, newline = false },
  { start = "\"", end = "\"", close = true, newline = false, not_in = ["string"] },
]
"#;

fn zed_language_config() -> (text: String)
    ensures
        text@ == ZED_LANGUAGE_CONFIG@,
{
    String::from_str(ZED_LANGUAGE_CONFIG)
}

/// The JetBrains plugin descriptor.
pub const JETBRAINS_PLUGIN: &'static str = r#"<!-- Generated by `piton grammar`. -->
<idea-plugin>
  <id>dev.piton.intellij</id>
  <name>Piton</name>
  <vendor>Piton</vendor>

  <description><![CDATA[
    Piton language support for JetBrains IDEs: TextMate highlighting plus the
    <code>piton</code> language server for diagnostics, completion, navigation,
    and formatting.
  ]]></description>

  <depends>com.intellij.modules.platform</depends>
  <depends>org.jetbrains.plugins.textmate</depends>

  <extensions defaultExtensionNs="com.intellij">
    <fileType name="Piton" language="Piton" extensions="pi"
              implementationClass="com.intellij.openapi.fileTypes.PlainTextFileType"
              fieldName="INSTANCE"/>
    <platform.lsp.serverSupportProvider
        implementation="dev.piton.PitonLspServerSupportProvider"/>
  </extensions>
</idea-plugin>
"#;

fn jetbrains_plugin() -> (text: String)
    ensures
        text@ == JETBRAINS_PLUGIN@,
{
    String::from_str(JETBRAINS_PLUGIN)
}

/// Starts `piton lsp` for every `.pi` file in a JetBrains project.
pub const JETBRAINS_LSP: &'static str = r#"// Generated by `piton grammar`.
package dev.piton

import com.intellij.openapi.project.Project
import com.intellij.openapi.vfs.VirtualFile
import com.intellij.platform.lsp.api.LspServerSupportProvider
import com.intellij.platform.lsp.api.ProjectWideLspServerDescriptor

/** Starts `piton lsp` for every `.pi` file in the project. */
class PitonLspServerSupportProvider : LspServerSupportProvider {
    override fun fileOpened(
        project: Project,
        file: VirtualFile,
        serverStarter: LspServerSupportProvider.LspServerStarter,
    ) {
        if (file.extension == "pi") {
            serverStarter.ensureServerStarted(PitonLspServerDescriptor(project))
        }
    }
}

private class PitonLspServerDescriptor(project: Project) :
    ProjectWideLspServerDescriptor(project, "Piton") {

    override fun isSupportedFile(file: VirtualFile) = file.extension == "pi"

    override fun createCommandLine() =
        com.intellij.execution.configurations.GeneralCommandLine("piton", "lsp")
}
"#;

fn jetbrains_lsp() -> (text: String)
    ensures
        text@ == JETBRAINS_LSP@,
{
    String::from_str(JETBRAINS_LSP)
}

/// Gradle needs a settings file to know what it is building.
pub const JETBRAINS_SETTINGS: &'static str = r#"// Generated by `piton grammar`.
rootProject.name = "piton"
"#;

fn jetbrains_settings() -> (text: String)
    ensures
        text@ == JETBRAINS_SETTINGS@,
{
    String::from_str(JETBRAINS_SETTINGS)
}

/// Pins the Gradle version, so `gradle wrapper` produces a known one.
pub const JETBRAINS_WRAPPER: &'static str = r#"# Generated by `piton grammar`.
distributionBase=GRADLE_USER_HOME
distributionPath=wrapper/dists
distributionUrl=https\://services.gradle.org/distributions/gradle-8.10.2-bin.zip
networkTimeout=10000
validateDistributionUrl=true
zipStoreBase=GRADLE_USER_HOME
zipStorePath=wrapper/dists
"#;

fn jetbrains_wrapper() -> (text: String)
    ensures
        text@ == JETBRAINS_WRAPPER@,
{
    String::from_str(JETBRAINS_WRAPPER)
}

/// The Gradle properties the plugin build uses.
pub const JETBRAINS_PROPERTIES: &'static str = r#"# Generated by `piton grammar`.
org.gradle.jvmargs=-Xmx2g
org.gradle.caching=true
kotlin.stdlib.default.dependency=false
"#;

fn jetbrains_properties() -> (text: String)
    ensures
        text@ == JETBRAINS_PROPERTIES@,
{
    String::from_str(JETBRAINS_PROPERTIES)
}

/// The Gradle build of the JetBrains plugin.
pub const JETBRAINS_GRADLE: &'static str = r#"// Generated by `piton grammar`.
plugins {
    id("java")
    id("org.jetbrains.kotlin.jvm") version "2.0.21"
    id("org.jetbrains.intellij.platform") version "2.1.0"
}

group = "dev.piton"
version = "0.1.0"

repositories {
    mavenCentral()
    intellijPlatform { defaultRepositories() }
}

dependencies {
    intellijPlatform {
        // The LSP API is only available in paid IDEs.
        intellijIdeaUltimate("2024.3")
        bundledPlugin("org.jetbrains.plugins.textmate")
    }
}

intellijPlatform {
    pluginConfiguration {
        ideaVersion {
            sinceBuild = "243"
        }
    }
}
"#;

fn jetbrains_gradle() -> (text: String)
    ensures
        text@ == JETBRAINS_GRADLE@,
{
    String::from_str(JETBRAINS_GRADLE)
}

/// How to install the JetBrains plugin or the TextMate bundle alone.
pub const JETBRAINS_README: &'static str = r#"# Piton for JetBrains IDEs

Generated by `piton grammar`.

There are two ways in, and which you want depends on whether your IDE has the
LSP API. That API is only in the paid IDEs — IntelliJ IDEA Ultimate, WebStorm,
PyCharm Professional, GoLand, RustRover, and so on — which is why the TextMate
bundle is shipped separately and needs no build at all.

## Highlighting, in any IDE, with no build

1. Settings → Editor → TextMate Bundles
2. `+`, and select the `bundles/piton` directory next to this file
3. Apply

`.pi` files are highlighted from then on. Nothing else is required.

## The full plugin, in a paid IDE

This adds the language server: diagnostics, completion, hover, go to
definition, find references, rename, and formatting.

You need a JDK 17 or newer and Gradle. The wrapper script is not checked in,
because it ships as a binary; generate it once:

```sh
cd editors/jetbrains
gradle wrapper          # once — or skip, and use `gradle` in place of `./gradlew`
./gradlew buildPlugin
```

That writes `build/distributions/piton-0.1.0.zip`. Install it:

1. Settings → Plugins
2. The gear icon → **Install Plugin from Disk…**
3. Choose the zip, and restart when asked

The plugin looks for `piton` on your `PATH`. Install it with
`cargo xtask install` from the Piton repository if you have not already.

Opening this directory in a JetBrains IDE also works: it will import the Gradle
project and offer to generate the wrapper for you.
"#;

fn jetbrains_readme() -> (text: String)
    ensures
        text@ == JETBRAINS_README@,
{
    String::from_str(JETBRAINS_README)
}

/// Zed's own build output, which lands inside the extension directory.
pub const ZED_GITIGNORE: &'static str = "/target\n/extension.wasm\n/grammars/\n";

/// Ignored in the JetBrains build directory.
pub const JETBRAINS_GITIGNORE: &'static str = "/build\n/.gradle\n";

/// Ignored by VS Code's packager.
pub const VSCODE_IGNORE: &'static str = ".vscode/**\nsrc/**/*.map\n";

/// The warning a manifest carries until the grammar has been published.
pub open spec fn unpublished_note() -> Seq<char> {
    r#"# NOT PUBLISHED: the grammar has no home yet, so Zed cannot fetch it.
#   git remote add "#@ + GRAMMAR_REMOTE_NAME@ + r#" <url>
#   cargo xtask publish-grammar
"#@
}

/// The Zed extension manifest, pinning the grammar's repository and commit.
pub open spec fn zed_manifest_text(source: GrammarSource) -> Seq<char> {
    let note = if published(source) { Seq::<char>::empty() } else { unpublished_note() };
    let remote = source.repository@;
    let rev = source.rev@;
    r#"# Generated by `piton grammar`.
id = "piton"
name = "Piton"
description = "Piton language support: highlighting and the piton language server"
version = "0.1.0"
schema_version = 1
authors = ["Piton"]
repository = "https://github.com/piton-lang/piton-rs"

[language_servers.piton]
name = "Piton Language Server"
languages = ["Piton"]

# Zed fetches grammars over git and wants a full commit SHA, not a branch.
"#@
        + note
        + r#"[grammars.piton]
repository = ""#@
        + remote
        + r#""
commit = ""#@
        + rev
        + r#""
"#@
}

fn zed_manifest(source: &GrammarSource) -> (text: String)
    ensures
        text@ == zed_manifest_text(*source),
{
    let note = if source.is_published() {
        String::new()
    } else {
        let mut n = String::new();
        push_str(&mut n, r#"# NOT PUBLISHED: the grammar has no home yet, so Zed cannot fetch it.
#   git remote add "#);
        push_str(&mut n, GRAMMAR_REMOTE_NAME);
        push_str(&mut n, r#" <url>
#   cargo xtask publish-grammar
"#);
        n
    };
    let remote = source.repository.clone();
    let rev = source.rev.clone();
    let mut out = String::new();
    push_str(&mut out, r#"# Generated by `piton grammar`.
id = "piton"
name = "Piton"
description = "Piton language support: highlighting and the piton language server"
version = "0.1.0"
schema_version = 1
authors = ["Piton"]
repository = "https://github.com/piton-lang/piton-rs"

[language_servers.piton]
name = "Piton Language Server"
languages = ["Piton"]

# Zed fetches grammars over git and wants a full commit SHA, not a branch.
"#);
    push_str(&mut out, note.as_str());
    push_str(&mut out, r#"[grammars.piton]
repository = ""#);
    push_str(&mut out, remote.as_str());
    push_str(&mut out, r#""
commit = ""#);
    push_str(&mut out, rev.as_str());
    push_str(&mut out, r#""
"#);
    out
}

/// What the Zed README says about the grammar: where it is fetched from once
/// published, and how to publish it until then.
pub open spec fn zed_grammar_step(source: GrammarSource) -> Seq<char> {
    if published(source) {
        let remote = source.repository@;
        r#"3. **The grammar comes with it.** Zed fetches the Tree-sitter grammar over
   git, from the repository and commit pinned in `extension.toml`:

   ```
   "#@
        + remote
        + r#"
   ```

   Nothing to do here — that is only a maintainer's concern, and
   [publishing the grammar](../../docs/development.md#publishing-the-tree-sitter-grammar)
   says how a new commit gets pinned."#@
    } else {
        r#"3. **Publish the grammar.** Zed fetches Tree-sitter grammars over git and wants
   a full commit SHA, so the grammar has to exist as its own repository:

   ```sh
   cargo xtask publish-grammar
   ```

   That pushes the `editors/tree-sitter-piton` subtree to whatever the `grammar`
   git remote points at, and writes the resulting commit into `[grammars.piton]`
   below. Tell git where that is once, per clone:

   ```sh
   git remote add grammar <url>
   ```

   The URL is not stored in this repository's source; `--remote` overrides it."#@
    }
}

/// The Zed README.
pub open spec fn zed_readme_text(source: GrammarSource) -> Seq<char> {
    let grammar = zed_grammar_step(source);
    r#"# Piton for Zed

Generated by `piton grammar`.

This directory is a Zed extension: a WebAssembly component that tells Zed how to
start `piton lsp`, plus the language configuration and Tree-sitter queries.

## Build and install

1. **Install the compiler**, so the extension has a server to start:

   ```sh
   cargo xtask install
   ```

2. **Add the WebAssembly target.** Zed compiles the extension itself, but it
   needs the target installed:

   ```sh
   rustup target add wasm32-wasip1
   ```

"#@
        + grammar
        + r#"

4. **Install the extension.** In Zed, open the command palette and run
   `zed: install dev extension`, then choose this directory. Zed builds the
   extension and compiles the grammar.

To check the extension compiles before handing it to Zed:

```sh
cargo xtask zed
```

Reinstalling after a change is the same command; Zed rebuilds a dev extension
when you run `zed: reload extensions`.

## Pointing at a different binary

The extension looks for `piton` on `$PATH`. If yours lives elsewhere:

```json
{
  "lsp": {
    "piton": { "binary": { "path": "/abs/path/to/piton", "arguments": ["lsp"] } }
  }
}
```

## Without the grammar

Highlighting comes from the Tree-sitter grammar. Everything else — diagnostics,
completion, hover, go to definition, rename, formatting — comes from `piton lsp`
and works whether or not Zed managed to fetch it.
"#@
}

fn zed_readme(source: &GrammarSource) -> (text: String)
    ensures
        text@ == zed_readme_text(*source),
{
    let grammar = if source.is_published() {
        let remote = source.repository.clone();
        let mut g = String::new();
    push_str(&mut g, r#"3. **The grammar comes with it.** Zed fetches the Tree-sitter grammar over
   git, from the repository and commit pinned in `extension.toml`:

   ```
   "#);
    push_str(&mut g, remote.as_str());
    push_str(&mut g, r#"
   ```

   Nothing to do here — that is only a maintainer's concern, and
   [publishing the grammar](../../docs/development.md#publishing-the-tree-sitter-grammar)
   says how a new commit gets pinned."#);
        g
    } else {
        String::from_str(r#"3. **Publish the grammar.** Zed fetches Tree-sitter grammars over git and wants
   a full commit SHA, so the grammar has to exist as its own repository:

   ```sh
   cargo xtask publish-grammar
   ```

   That pushes the `editors/tree-sitter-piton` subtree to whatever the `grammar`
   git remote points at, and writes the resulting commit into `[grammars.piton]`
   below. Tell git where that is once, per clone:

   ```sh
   git remote add grammar <url>
   ```

   The URL is not stored in this repository's source; `--remote` overrides it."#)
    };
    let mut out = String::new();
    push_str(&mut out, r#"# Piton for Zed

Generated by `piton grammar`.

This directory is a Zed extension: a WebAssembly component that tells Zed how to
start `piton lsp`, plus the language configuration and Tree-sitter queries.

## Build and install

1. **Install the compiler**, so the extension has a server to start:

   ```sh
   cargo xtask install
   ```

2. **Add the WebAssembly target.** Zed compiles the extension itself, but it
   needs the target installed:

   ```sh
   rustup target add wasm32-wasip1
   ```

"#);
    push_str(&mut out, grammar.as_str());
    push_str(&mut out, r#"

4. **Install the extension.** In Zed, open the command palette and run
   `zed: install dev extension`, then choose this directory. Zed builds the
   extension and compiles the grammar.

To check the extension compiles before handing it to Zed:

```sh
cargo xtask zed
```

Reinstalling after a change is the same command; Zed rebuilds a dev extension
when you run `zed: reload extensions`.

## Pointing at a different binary

The extension looks for `piton` on `$PATH`. If yours lives elsewhere:

```json
{
  "lsp": {
    "piton": { "binary": { "path": "/abs/path/to/piton", "arguments": ["lsp"] } }
  }
}
```

## Without the grammar

Highlighting comes from the Tree-sitter grammar. Everything else — diagnostics,
completion, hover, go to definition, rename, formatting — comes from `piton lsp`
and works whether or not Zed managed to fetch it.
"#);
    out
}

/// What a generated file is, as text: its path and its contents.
pub open spec fn entries(files: Seq<GeneratedFile>) -> Seq<(Seq<char>, Seq<char>)> {
    files.map_values(|f: GeneratedFile| (f.path@, f.contents@))
}

/// The files every extension gets, before the Tree-sitter queries Zed reads.
pub open spec fn extension_base(v: Vocabulary, source: GrammarSource) -> Seq<(Seq<char>, Seq<char>)> {
    seq![
        ("vscode/package.json"@, VSCODE_PACKAGE@),
        ("vscode/language-configuration.json"@, LANGUAGE_CONFIGURATION@),
        ("vscode/syntaxes/piton.tmLanguage.json"@, grammar_for(v)),
        ("vscode/src/extension.js"@, VSCODE_CLIENT@),
        ("vscode/.vscodeignore"@, VSCODE_IGNORE@),
        ("vscode/README.md"@, VSCODE_README@),
        ("zed/extension.toml"@, zed_manifest_text(source)),
        ("zed/languages/piton/config.toml"@, ZED_LANGUAGE_CONFIG@),
        ("zed/Cargo.toml"@, ZED_CARGO@),
        ("zed/src/lib.rs"@, ZED_EXTENSION@),
        ("zed/.gitignore"@, ZED_GITIGNORE@),
        ("zed/README.md"@, zed_readme_text(source)),
        ("jetbrains/build.gradle.kts"@, JETBRAINS_GRADLE@),
        ("jetbrains/settings.gradle.kts"@, JETBRAINS_SETTINGS@),
        ("jetbrains/gradle/wrapper/gradle-wrapper.properties"@, JETBRAINS_WRAPPER@),
        ("jetbrains/gradle.properties"@, JETBRAINS_PROPERTIES@),
        ("jetbrains/.gitignore"@, JETBRAINS_GITIGNORE@),
        ("jetbrains/src/main/resources/META-INF/plugin.xml"@, JETBRAINS_PLUGIN@),
        ("jetbrains/src/main/kotlin/dev/piton/PitonLspServerSupportProvider.kt"@, JETBRAINS_LSP@),
        ("jetbrains/bundles/piton/piton.tmLanguage.json"@, grammar_for(v)),
        ("jetbrains/bundles/piton/package.json"@, TEXTMATE_BUNDLE_MANIFEST@),
        ("jetbrains/bundles/piton/language-configuration.json"@, LANGUAGE_CONFIGURATION@),
        ("jetbrains/README.md"@, JETBRAINS_README@),
    ]
}

/// Whether a path's last component is `name`.
pub open spec fn ends_in(path: Seq<char>, name: Seq<char>) -> bool {
    components(path).len() > 0 && components(path).last() == name
}

/// The contents of the first file whose last component is `name`, or nothing.
pub open spec fn query_source(files: Seq<(Seq<char>, Seq<char>)>, name: Seq<char>) -> Seq<char>
    decreases files.len(),
{
    if files.len() == 0 {
        Seq::empty()
    } else if ends_in(files[0].0, name) {
        files[0].1
    } else {
        query_source(files.drop_first(), name)
    }
}

/// The Tree-sitter queries Zed reads out of the extension directory.
pub open spec fn query_names() -> Seq<Seq<char>> {
    seq!["highlights"@, "injections"@, "folds"@, "indents"@, "outline"@, "brackets"@]
}

/// Every file of the VS Code, Zed, and JetBrains extensions, given the files
/// of the Tree-sitter grammar whose queries Zed copies.
pub open spec fn extension_files(
    v: Vocabulary,
    source: GrammarSource,
    tree_sitter: Seq<(Seq<char>, Seq<char>)>,
) -> Seq<(Seq<char>, Seq<char>)> {
    extension_base(v, source) + query_names().map_values(
        |q: Seq<char>| ("zed/languages/piton/"@ + q + ".scm"@, query_source(tree_sitter, q + ".scm"@)),
    )
}

/// The contents of the first file whose last component is `name`.
fn find_query(tree_sitter: &Vec<GeneratedFile>, name: &str) -> (text: String)
    ensures
        text@ == query_source(entries(tree_sitter@), name@),
{
    let target = chars_of(name);
    let mut i: usize = 0;
    assert(entries(tree_sitter@).skip(0) =~= entries(tree_sitter@));
    while i < tree_sitter.len()
        invariant
            i <= tree_sitter.len(),
            target@ == name@,
            query_source(entries(tree_sitter@), name@) == query_source(
                entries(tree_sitter@).skip(i as int),
                name@,
            ),
        decreases tree_sitter.len() - i,
    {
        let comps = components_of(tree_sitter[i].path.as_str());
        proof {
            assert(entries(tree_sitter@).skip(i as int)[0] == entries(tree_sitter@)[i as int]);
            assert(entries(tree_sitter@).skip(i as int).drop_first() =~= entries(tree_sitter@).skip(i + 1));
        }
        if comps.len() > 0 && chars_eq(&comps[comps.len() - 1], &target) {
            return tree_sitter[i].contents.clone();
        }
        i = i + 1;
    }
    assert(entries(tree_sitter@).skip(i as int) =~= Seq::<(Seq<char>, Seq<char>)>::empty());
    String::new()
}

/// Every file of the VS Code, Zed, and JetBrains extensions. Zed reads its
/// Tree-sitter queries out of the extension directory itself, so they are
/// copied from the grammar's own files, which the caller passes in.
pub fn files(
    vocabulary: &Vocabulary,
    source: &GrammarSource,
    tree_sitter: &Vec<GeneratedFile>,
) -> (out: Vec<GeneratedFile>)
    ensures
        entries(out@) == extension_files(*vocabulary, *source, entries(tree_sitter@)),
{
    let mut files: Vec<GeneratedFile> = Vec::new();
    files.push(GeneratedFile::new("vscode/package.json", vscode_package()));
    files.push(GeneratedFile::new("vscode/language-configuration.json", language_configuration()));
    files.push(GeneratedFile::new("vscode/syntaxes/piton.tmLanguage.json", grammar(vocabulary)));
    files.push(GeneratedFile::new("vscode/src/extension.js", vscode_client()));
    files.push(GeneratedFile::new("vscode/.vscodeignore", String::from_str(VSCODE_IGNORE)));
    files.push(GeneratedFile::new("vscode/README.md", vscode_readme()));
    files.push(GeneratedFile::new("zed/extension.toml", zed_manifest(source)));
    files.push(GeneratedFile::new("zed/languages/piton/config.toml", zed_language_config()));
    files.push(GeneratedFile::new("zed/Cargo.toml", zed_cargo()));
    files.push(GeneratedFile::new("zed/src/lib.rs", zed_extension()));
    files.push(GeneratedFile::new("zed/.gitignore", String::from_str(ZED_GITIGNORE)));
    files.push(GeneratedFile::new("zed/README.md", zed_readme(source)));
    files.push(GeneratedFile::new("jetbrains/build.gradle.kts", jetbrains_gradle()));
    files.push(GeneratedFile::new("jetbrains/settings.gradle.kts", jetbrains_settings()));
    files.push(GeneratedFile::new("jetbrains/gradle/wrapper/gradle-wrapper.properties", jetbrains_wrapper()));
    files.push(GeneratedFile::new("jetbrains/gradle.properties", jetbrains_properties()));
    files.push(GeneratedFile::new("jetbrains/.gitignore", String::from_str(JETBRAINS_GITIGNORE)));
    files.push(GeneratedFile::new("jetbrains/src/main/resources/META-INF/plugin.xml", jetbrains_plugin()));
    files.push(GeneratedFile::new("jetbrains/src/main/kotlin/dev/piton/PitonLspServerSupportProvider.kt", jetbrains_lsp()));
    files.push(GeneratedFile::new("jetbrains/bundles/piton/piton.tmLanguage.json", grammar(vocabulary)));
    files.push(GeneratedFile::new("jetbrains/bundles/piton/package.json", textmate_bundle_manifest()));
    files.push(GeneratedFile::new("jetbrains/bundles/piton/language-configuration.json", language_configuration()));
    files.push(GeneratedFile::new("jetbrains/README.md", jetbrains_readme()));
    assert(entries(files@) =~= extension_base(*vocabulary, *source));
    let queries = ["highlights", "injections", "folds", "indents", "outline", "brackets"];
    let ghost names = query_names();
    let ghost ts = entries(tree_sitter@);
    let ghost base = extension_base(*vocabulary, *source);
    let ghost tail = names.map_values(
        |q: Seq<char>| ("zed/languages/piton/"@ + q + ".scm"@, query_source(ts, q + ".scm"@)),
    );
    assert(queries@.map_values(|q: &str| q@) =~= names);
    let mut k: usize = 0;
    while k < 6
        invariant
            k <= 6,
            queries@.map_values(|q: &str| q@) == names,
            names.len() == 6,
            ts == entries(tree_sitter@),
            tail == names.map_values(
                |q: Seq<char>| ("zed/languages/piton/"@ + q + ".scm"@, query_source(ts, q + ".scm"@)),
            ),
            entries(files@) == base + tail.take(k as int),
        decreases 6 - k,
    {
        let query = queries[k];
        let mut name = String::from_str(query);
        push_str(&mut name, ".scm");
        let text = find_query(tree_sitter, name.as_str());
        let mut path = String::from_str("zed/languages/piton/");
        push_str(&mut path, query);
        push_str(&mut path, ".scm");
        let ghost before = entries(files@);
        files.push(GeneratedFile { path, contents: text });
        proof {
            assert(queries@.map_values(|q: &str| q@)[k as int] == query@);
            assert(entries(files@) =~= before.push(entries(files@).last()));
            assert(tail.take(k + 1) =~= tail.take(k as int).push(tail[k as int]));
        }
        k = k + 1;
    }
    assert(tail.take(6) =~= tail);
    files
}

} // verus!
