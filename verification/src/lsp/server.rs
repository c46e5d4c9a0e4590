//! The server's decisions between requests: when a recompile scheduled
//! while typing should still run, and what a change on disk asks for.
use vstd::prelude::*;

verus! {

/// Counts edits, so that a recompile scheduled after one can tell whether a
/// later edit has overtaken it.
pub struct Debounce {
    generation: u64,
}

impl Debounce {
    /// The number of the latest edit.
    pub closed spec fn latest(self) -> u64 {
        self.generation
    }

    pub fn new() -> (d: Debounce)
        ensures
            d.latest() == 0,
    {
        Debounce { generation: 0 }
    }

    /// Records an edit, and hands out the ticket of the recompile it asks
    /// for: the edit's number.
    pub fn schedule(&mut self) -> (ticket: u64)
        ensures
            ticket == old(self).latest().wrapping_add(1),
            final(self).latest() == ticket,
    {
        self.generation = self.generation.wrapping_add(1);
        self.generation
    }

    /// Whether the recompile holding `ticket` should run once typing has
    /// paused: only if no edit came after the one that scheduled it.
    pub fn is_current(&self, ticket: u64) -> (r: bool)
        ensures
            r == (ticket == self.latest()),
    {
        self.generation == ticket
    }
}

/// Of two edits in a row, only the second one's recompile runs: once the
/// second is scheduled, the first one's ticket is no longer current and the
/// second's is.
pub proof fn lemma_burst_runs_once(d0: Debounce, first: u64, d1: Debounce, second: u64, d2: Debounce)
    requires
        first == d0.latest().wrapping_add(1),
        d1.latest() == first,
        second == d1.latest().wrapping_add(1),
        d2.latest() == second,
    ensures
        first != d2.latest(),
        second == d2.latest(),
{
}

/// What a change to a file on disk asks of the server.
#[derive(Clone, Copy, Debug, PartialEq, Eq, Structural)]
pub enum Reaction {
    /// The configuration changed, so which files are the project changed.
    ReloadProject,
    /// The file is gone, and no buffer may hide that.
    Close,
    /// Something the server had not heard of.
    Recompile,
    /// A second telling of an edit to an open buffer, already heard.
    Nothing,
}

/// How a file changed on disk, as the editor reports it.
#[derive(Clone, Copy, Debug, PartialEq, Eq, Structural)]
pub enum FileChange {
    Created,
    Changed,
    Deleted,
}

/// What a reported change to a file on disk asks for. A change to the
/// configuration reloads the project; a deleted file is closed; a change to a
/// file the editor has open was already heard through the editor; anything
/// else is news.
pub fn watched_reaction(is_config: bool, change: FileChange, open: bool) -> (r: Reaction)
    ensures
        is_config ==> r == Reaction::ReloadProject,
        !is_config && change == FileChange::Deleted ==> r == Reaction::Close,
        !is_config && change == FileChange::Changed && open ==> r == Reaction::Nothing,
        !is_config && change != FileChange::Deleted && !(change == FileChange::Changed && open) ==> r
            == Reaction::Recompile,
{
    if is_config {
        return Reaction::ReloadProject;
    }
    match change {
        FileChange::Deleted => Reaction::Close,
        FileChange::Changed if open => Reaction::Nothing,
        _ => Reaction::Recompile,
    }
}

/// Whether a batch of reactions makes the server recompile and republish:
/// any of them but hearing the same thing twice does.
pub open spec fn any_news(rs: Seq<Reaction>) -> bool {
    exists|i: int| 0 <= i < rs.len() && rs[i] != Reaction::Nothing
}

/// Whether a batch of changes on disk is news.
pub fn has_news(reactions: &Vec<Reaction>) -> (r: bool)
    ensures
        r == any_news(reactions@),
{
    let mut i: usize = 0;
    while i < reactions.len()
        invariant
            i <= reactions.len(),
            forall|j: int| 0 <= j < i ==> reactions@[j] == Reaction::Nothing,
        decreases reactions.len() - i,
    {
        if reactions[i] != Reaction::Nothing {
            return true;
        }
        i = i + 1;
    }
    false
}

} // verus!
