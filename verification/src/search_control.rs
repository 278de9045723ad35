//! Which search runs: where its items come from, and which run's results
//! are current (each run has an epoch; results of older runs are
//! dropped).
use vstd::prelude::*;
use crate::config::strings_view;
use crate::matcher::MatcherCommand;
use crate::search_types::SearchConfig;

verus! {

/// Where a search's items come from.
pub enum SearchInputSource {
    Filesystem,
    GitSearch,
    Stdin(Vec<String>),
}

/// The search runs: where items come from, the epoch of the current run
/// (if one runs), and the epoch the next run gets.
pub struct SearchController {
    pub source: SearchInputSource,
    pub active_epoch: Option<u64>,
    pub next_epoch: u64,
}

/// The items a run is given up front: the piped items, for a piped
/// search.
pub open spec fn spawn_items_of(source: SearchInputSource) -> Option<Seq<Seq<char>>> {
    match source {
        SearchInputSource::Stdin(items) => Some(strings_view(items@)),
        _ => None,
    }
}

impl SearchController {
    /// The runs of a search: a git search when the configuration has a git
    /// scope, else the piped items when there are, else the file system;
    /// the first run starts when search is enabled.
    pub fn from_search_config(search_config: &SearchConfig, stdin_items: Option<Vec<String>>, search_enabled: bool) -> (r: Self)
        ensures
            search_config.git_search_scope is Some ==> r.source is GitSearch,
            search_config.git_search_scope is None ==> match stdin_items {
                Some(items) => r.source matches SearchInputSource::Stdin(v) && strings_view(v@) == strings_view(items@),
                None => r.source is Filesystem,
            },
            r.active_epoch == (if search_enabled { Some(0u64) } else { None }),
            r.next_epoch == (if search_enabled { 1u64 } else { 0u64 }),
    {
        let source = if search_config.git_search_scope.is_some() {
            SearchInputSource::GitSearch
        } else {
            match stdin_items {
                Some(items) => SearchInputSource::Stdin(items),
                None => SearchInputSource::Filesystem,
            }
        };
        let mut c = SearchController { source, active_epoch: None, next_epoch: 0 };
        if search_enabled {
            c.restart();
        }
        c
    }

    /// Starts a new run (the caller stops the old one and starts the new
    /// one under the returned epoch).
    pub fn restart(&mut self) -> (epoch: u64)
        requires
            old(self).next_epoch < u64::MAX,
        ensures
            epoch == old(self).next_epoch,
            final(self).active_epoch == Some(epoch),
            final(self).next_epoch == old(self).next_epoch + 1,
            final(self).source == old(self).source,
    {
        let epoch = self.next_epoch;
        self.next_epoch = self.next_epoch + 1;
        self.active_epoch = Some(epoch);
        epoch
    }

    /// Applies a pending restart (when `restart_search` is set): the flag
    /// is cleared, a new run starts under the returned epoch, the result
    /// limit goes back to 100, and the query (when not empty) is to be sent
    /// to the new run.
    pub fn reconcile(&mut self, restart_search: &mut bool, item_limit: &mut u32, query: &str)
        -> (r: Option<(u64, Option<MatcherCommand>)>)
        requires
            old(self).next_epoch < u64::MAX,
        ensures
            !*old(restart_search) ==> r is None && *final(self) == *old(self) && *final(item_limit) == *old(item_limit)
                && !*final(restart_search),
            *old(restart_search) ==> ({
                &&& !*final(restart_search)
                &&& *final(item_limit) == 100
                &&& final(self).active_epoch == Some(old(self).next_epoch)
                &&& final(self).next_epoch == old(self).next_epoch + 1
                &&& final(self).source == old(self).source
                &&& r matches Some((e, cmd)) && e == old(self).next_epoch
                    && (query@.len() == 0 ==> cmd is None)
                    && (query@.len() > 0 ==> (cmd matches Some(MatcherCommand::Query(q)) && q@ == query@))
            }),
    {
        if !*restart_search {
            return None;
        }
        *restart_search = false;
        let epoch = self.restart();
        *item_limit = 100;
        let cmd = self.query_command(query);
        Some((epoch, cmd))
    }

    /// Stops the current run.
    pub fn shutdown(&mut self)
        ensures
            final(self).active_epoch is None,
            final(self).next_epoch == old(self).next_epoch,
            final(self).source == old(self).source,
    {
        self.active_epoch = None;
    }

    /// Whether results of the run `epoch` are current.
    pub fn accepts_epoch(&self, epoch: u64) -> (b: bool)
        ensures
            b == (self.active_epoch == Some(epoch)),
    {
        match self.active_epoch {
            Some(e) => e == epoch,
            None => false,
        }
    }

    /// The command that sends `query` to the current run: none for an
    /// empty query or when nothing runs.
    pub fn query_command(&self, query: &str) -> (r: Option<MatcherCommand>)
        ensures
            (query@.len() == 0 || self.active_epoch is None) ==> r is None,
            (query@.len() > 0 && self.active_epoch is Some) ==> (r matches Some(MatcherCommand::Query(q)) && q@ == query@),
    {
        if query.unicode_len() == 0 || self.active_epoch.is_none() {
            return None;
        }
        Some(MatcherCommand::Query(crate::chars::to_owned_string(query)))
    }

    /// The items a new run is given up front.
    pub fn spawn_items(&self) -> (r: Option<Vec<String>>)
        ensures
            match spawn_items_of(self.source) {
                Some(v) => r is Some && strings_view(r->0@) == v,
                None => r is None,
            },
    {
        match &self.source {
            SearchInputSource::Stdin(items) => Some(crate::config::clone_strings(items)),
            _ => None,
        }
    }
}

/// After a restart only the new run's results are taken: those of every
/// run started before are dropped.
pub proof fn lemma_restart_drops_older_runs(before: SearchController, after: SearchController, epoch: u64, old_epoch: u64)
    requires
        after.active_epoch == Some(epoch),
        epoch == before.next_epoch,
        old_epoch < before.next_epoch,
    ensures
        after.active_epoch != Some(old_epoch),
        after.active_epoch == Some(epoch),
{
}

} // verus!
