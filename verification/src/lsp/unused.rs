//! Symbols nothing uses: anchors the project never reaches, variables of
//! modules it never reaches, and exports nothing imports.
use vstd::prelude::*;

use crate::lsp::convert::Span;
use crate::text::push_str;

verus! {

/// An anchor the reachability walk did not land on: its name, the path of
/// its module, where its name is written, whether that module is the project
/// configuration, and whether something writes the keyword it declares.
pub struct AnchorFacts {
    pub name: String,
    pub path: String,
    pub span: Span,
    pub config: bool,
    pub keyword_used: bool,
}

/// A variable: its name, its module's path, where its name is written,
/// whether that module is the project configuration, whether the project
/// reaches that module, whether anything refers to the variable, and whether
/// it is exported.
pub struct VariableFacts {
    pub name: String,
    pub path: String,
    pub span: Span,
    pub config: bool,
    pub module_reached: bool,
    pub referenced: bool,
    pub exported: bool,
}

/// An `export Name` declaration: the name, its module's path, where the name
/// is written, whether the module is a package or the configuration, whether
/// the name resolves, whether what it names is live (the entry module
/// exports it, or a reached module does), and whether another module refers
/// to it.
pub struct ExportFacts {
    pub name: String,
    pub path: String,
    pub span: Span,
    pub skipped: bool,
    pub resolves: bool,
    pub live: bool,
    pub imported_elsewhere: bool,
}

/// A warning about a symbol nothing uses.
#[derive(Clone, Debug, PartialEq, Eq)]
pub struct UnusedFinding {
    pub code: String,
    pub message: String,
    pub help: String,
    pub path: String,
    pub span: Span,
}

pub struct UnusedFindingView {
    pub code: Seq<char>,
    pub message: Seq<char>,
    pub help: Seq<char>,
    pub path: Seq<char>,
    pub span: Span,
}

impl View for UnusedFinding {
    type V = UnusedFindingView;

    open spec fn view(&self) -> UnusedFindingView {
        UnusedFindingView {
            code: self.code@,
            message: self.message@,
            help: self.help@,
            path: self.path@,
            span: self.span,
        }
    }
}

/// Whether a path is a package's (it starts with `@`).
pub open spec fn in_package(path: Seq<char>) -> bool {
    path.len() > 0 && path[0] == '@'
}

/// The warning for an anchor nothing uses.
pub open spec fn anchor_finding(a: AnchorFacts) -> UnusedFindingView {
    UnusedFindingView {
        code: "unused-anchor"@,
        message: "`"@ + a.name@ + "` is never referenced and does not contribute to the compiled result"@,
        help: "reference it, extend it, or remove it; `piton reach` reports the same set"@,
        path: a.path@,
        span: a.span,
    }
}

/// The warning for a variable nothing uses.
pub open spec fn variable_finding(v: VariableFacts) -> UnusedFindingView {
    UnusedFindingView {
        code: if v.exported { "unused-export"@ } else { "unused-variable"@ },
        message: "`"@ + v.name@ + "` is never referenced and its module contributes nothing to the compiled result"@,
        help: "remove it, or reference it from a reached module"@,
        path: v.path@,
        span: v.span,
    }
}

/// The warning for an export nothing imports.
pub open spec fn export_finding(e: ExportFacts) -> UnusedFindingView {
    UnusedFindingView {
        code: "unused-export"@,
        message: "`"@ + e.name@ + "` is exported but nothing imports it"@,
        help: "remove the export, or import the name where it is needed"@,
        path: e.path@,
        span: e.span,
    }
}

/// Whether an unreached anchor is warned about: not in a package or the
/// configuration, and no written keyword keeps it alive.
pub open spec fn anchor_unused(a: AnchorFacts) -> bool {
    !in_package(a.path@) && !a.config && !a.keyword_used
}

/// Whether a variable is warned about: not in a package or the
/// configuration, its module not reached, and nothing refers to it.
pub open spec fn variable_unused(v: VariableFacts) -> bool {
    !in_package(v.path@) && !v.config && !v.module_reached && !v.referenced
}

/// Whether an export is warned about: its module is neither a package nor
/// the configuration, the name resolves, what it names is not live, and no
/// other module refers to it.
pub open spec fn export_unused(e: ExportFacts) -> bool {
    !e.skipped && e.resolves && !e.live && !e.imported_elsewhere
}

/// The warnings, in order, about the first `k` unreached anchors.
pub open spec fn anchor_findings(xs: Seq<AnchorFacts>, k: nat) -> Seq<UnusedFindingView>
    decreases k,
{
    if k == 0 || k > xs.len() {
        Seq::empty()
    } else {
        let before = anchor_findings(xs, (k - 1) as nat);
        if anchor_unused(xs[k - 1]) { before.push(anchor_finding(xs[k - 1])) } else { before }
    }
}

/// The warnings, in order, about the first `k` variables.
pub open spec fn variable_findings(xs: Seq<VariableFacts>, k: nat) -> Seq<UnusedFindingView>
    decreases k,
{
    if k == 0 || k > xs.len() {
        Seq::empty()
    } else {
        let before = variable_findings(xs, (k - 1) as nat);
        if variable_unused(xs[k - 1]) { before.push(variable_finding(xs[k - 1])) } else { before }
    }
}

/// The warnings, in order, about the first `k` exports.
pub open spec fn export_findings(xs: Seq<ExportFacts>, k: nat) -> Seq<UnusedFindingView>
    decreases k,
{
    if k == 0 || k > xs.len() {
        Seq::empty()
    } else {
        let before = export_findings(xs, (k - 1) as nat);
        if export_unused(xs[k - 1]) { before.push(export_finding(xs[k - 1])) } else { before }
    }
}

/// Every warning about a symbol nothing uses: anchors, then variables, then
/// exports.
pub open spec fn unused_findings_of(
    anchors: Seq<AnchorFacts>,
    vars: Seq<VariableFacts>,
    exports: Seq<ExportFacts>,
) -> Seq<UnusedFindingView> {
    anchor_findings(anchors, anchors.len()) + variable_findings(vars, vars.len()) + export_findings(
        exports,
        exports.len(),
    )
}

fn starts_with_at(path: &str) -> (r: bool)
    ensures
        r == in_package(path@),
{
    let cs = crate::text::chars_of(path);
    cs.len() > 0 && cs[0] == '@'
}

fn copy(s: &str) -> (r: String)
    ensures
        r@ == s@,
{
    let mut r = String::new();
    push_str(&mut r, s);
    r
}

fn wrap_name(before: &str, name: &str, after: &str) -> (r: String)
    ensures
        r@ == before@ + name@ + after@,
{
    let mut r = String::new();
    push_str(&mut r, before);
    push_str(&mut r, name);
    push_str(&mut r, after);
    r
}

/// Every warning about a symbol nothing uses, in order: each unreached anchor
/// outside packages and the configuration whose keyword nothing writes; each
/// variable outside packages and the configuration whose module the project
/// does not reach and that nothing refers to (`unused-export` when it is
/// exported); each export of a module that is neither a package nor the
/// configuration whose name resolves to something not live that no other
/// module refers to.
pub fn unused_findings(
    anchors: &Vec<AnchorFacts>,
    vars: &Vec<VariableFacts>,
    exports: &Vec<ExportFacts>,
) -> (found: Vec<UnusedFinding>)
    ensures
        found@.map_values(|f: UnusedFinding| f@) == unused_findings_of(anchors@, vars@, exports@),
{
    let mut found: Vec<UnusedFinding> = Vec::new();
    let mut k: usize = 0;
    proof {
        assert(found@.map_values(|f: UnusedFinding| f@) =~= anchor_findings(anchors@, 0));
    }
    while k < anchors.len()
        invariant
            k <= anchors@.len(),
            found@.map_values(|f: UnusedFinding| f@) == anchor_findings(anchors@, k as nat),
        decreases anchors@.len() - k,
    {
        let a = &anchors[k];
        if !starts_with_at(a.path.as_str()) && !a.config && !a.keyword_used {
            let ghost before = found@;
            found.push(UnusedFinding {
                code: copy("unused-anchor"),
                message: wrap_name("`", a.name.as_str(), "` is never referenced and does not contribute to the compiled result"),
                help: copy("reference it, extend it, or remove it; `piton reach` reports the same set"),
                path: copy(a.path.as_str()),
                span: a.span,
            });
            proof {
                assert(found@.map_values(|f: UnusedFinding| f@) =~= before.map_values(|f: UnusedFinding| f@).push(anchor_finding(*a)));
            }
        }
        k = k + 1;
    }
    let ghost first = found@.map_values(|f: UnusedFinding| f@);
    let mut k: usize = 0;
    proof {
        assert(first + variable_findings(vars@, 0) =~= first);
    }
    while k < vars.len()
        invariant
            k <= vars@.len(),
            found@.map_values(|f: UnusedFinding| f@) == first + variable_findings(vars@, k as nat),
        decreases vars@.len() - k,
    {
        let v = &vars[k];
        if !starts_with_at(v.path.as_str()) && !v.config && !v.module_reached && !v.referenced {
            let ghost before = found@;
            found.push(UnusedFinding {
                code: if v.exported { copy("unused-export") } else { copy("unused-variable") },
                message: wrap_name(
                    "`",
                    v.name.as_str(),
                    "` is never referenced and its module contributes nothing to the compiled result",
                ),
                help: copy("remove it, or reference it from a reached module"),
                path: copy(v.path.as_str()),
                span: v.span,
            });
            proof {
                assert(found@.map_values(|f: UnusedFinding| f@) =~= before.map_values(|f: UnusedFinding| f@).push(variable_finding(*v)));
            }
        }
        k = k + 1;
    }
    let ghost second = found@.map_values(|f: UnusedFinding| f@);
    let mut k: usize = 0;
    proof {
        assert(second + export_findings(exports@, 0) =~= second);
    }
    while k < exports.len()
        invariant
            k <= exports@.len(),
            found@.map_values(|f: UnusedFinding| f@) == second + export_findings(exports@, k as nat),
        decreases exports@.len() - k,
    {
        let e = &exports[k];
        if !e.skipped && e.resolves && !e.live && !e.imported_elsewhere {
            let ghost before = found@;
            found.push(UnusedFinding {
                code: copy("unused-export"),
                message: wrap_name("`", e.name.as_str(), "` is exported but nothing imports it"),
                help: copy("remove the export, or import the name where it is needed"),
                path: copy(e.path.as_str()),
                span: e.span,
            });
            proof {
                assert(found@.map_values(|f: UnusedFinding| f@) =~= before.map_values(|f: UnusedFinding| f@).push(export_finding(*e)));
            }
        }
        k = k + 1;
    }
    found
}

} // verus!
