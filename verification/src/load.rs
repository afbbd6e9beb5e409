//! Per-path map-load tracking: each requested path owns a cell holding
//! the load's status. The asynchronous fetch itself lives outside the
//! simulation; it reports back through `complete` and `fail`, quoting
//! the ticket its `load` call returned. Polling never blocks. A second
//! `load` for the same path starts a brand new state machine under a
//! fresh ticket: the first machine's reports no longer match the cell's
//! ticket and are discarded, so only the second load's outcome can ever
//! be observed.

use vstd::prelude::*;
use vstd::string::StringExecFns;
use crate::tiled::TiledMap;

verus! {

/// The status of one requested map path.
#[derive(Debug)]
pub enum LoadStatus {
    /// The fetch was dispatched and has not reported back.
    Started,
    /// Terminal: the decoded map is available.
    Complete(TiledMap),
    /// Terminal: the fetch or the decode failed.
    Error(String),
}

/// A path's tracked cell: which load owns it, and where that load is.
/// The ticket identifies the `load` call that created the cell, so a
/// fetch dispatched for an overwritten load cannot write here.
#[derive(Debug)]
pub struct LoadCell {
    pub ticket: u64,
    pub status: LoadStatus,
}

/// The status of a path as a caller polls it, without the payload.
#[derive(Clone, Copy, Debug, PartialEq, Eq, Structural)]
pub enum LoadStatusKind {
    /// The path was never requested (or its outcome was taken).
    NotRequested,
    Started,
    Complete,
    Error,
}

/// Index of the first entry at or after `i` tracking the given path.
pub open spec fn find_load(entries: Seq<(String, LoadCell)>, path: Seq<char>, i: int) -> Option<
    int,
>
    decreases entries.len() - i,
{
    if i < 0 || i >= entries.len() {
        None
    } else if entries[i].0@ == path {
        Some(i)
    } else {
        find_load(entries, path, i + 1)
    }
}

/// The tracked load state of every requested map path.
#[derive(Debug)]
pub struct LoadTracker {
    pub entries: Vec<(String, LoadCell)>,
    /// The ticket the next `load` call hands out; tickets never repeat.
    pub next_ticket: u64,
}

impl LoadTracker {
    /// One entry per path.
    pub open spec fn wf(self) -> bool {
        forall|i: int, j: int|
            0 <= i < j < self.entries@.len() ==> (#[trigger] self.entries@[i]).0@ != (
            #[trigger] self.entries@[j]).0@
    }

    /// The status tracked for a path, if any.
    pub open spec fn status_spec(self, path: Seq<char>) -> Option<LoadStatus> {
        match find_load(self.entries@, path, 0) {
            Some(i) => Some(self.entries@[i].1.status),
            None => None,
        }
    }

    pub fn new() -> (r: LoadTracker)
        ensures
            r.entries@ =~= Seq::<(String, LoadCell)>::empty(),
            r.next_ticket == 0,
            r.wf(),
    {
        LoadTracker { entries: Vec::new(), next_ticket: 0 }
    }

    /// Find the position of a path's entry.
    fn find(&self, path: &str) -> (r: Option<usize>)
        ensures
            match r {
                Some(i) => find_load(self.entries@, path@, 0) == Some(i as int) && i
                    < self.entries@.len() && self.entries@[i as int].0@ == path@,
                None => find_load(self.entries@, path@, 0) is None,
            },
    {
        let mut i: usize = 0;
        while i < self.entries.len()
            invariant
                i <= self.entries@.len(),
                find_load(self.entries@, path@, 0) == find_load(self.entries@, path@, i as int),
            decreases self.entries@.len() - i,
        {
            if crate::assemble::str_eq(self.entries[i].0.as_str(), path) {
                return Some(i);
            }
            i = i + 1;
        }
        None
    }

    /// Start tracking a load for a path: its cell becomes `Started`
    /// under a fresh ticket, whatever it held. A repeated `load` before
    /// the first completes overwrites the cell: the first machine's
    /// reports quote a stale ticket and are discarded, so `take`
    /// observes only the newer machine's outcome.
    pub fn load(&mut self, path: String) -> (ticket: u64)
        requires
            old(self).wf(),
            old(self).next_ticket < u64::MAX,
        ensures
            ticket == old(self).next_ticket,
            final(self).next_ticket == old(self).next_ticket + 1,
            final(self).entries@ == (match find_load(old(self).entries@, path@, 0) {
                Some(i) => old(self).entries@.update(
                    i,
                    (path, LoadCell { ticket, status: LoadStatus::Started }),
                ),
                None => old(self).entries@.push(
                    (path, LoadCell { ticket, status: LoadStatus::Started }),
                ),
            }),
            final(self).wf(),
    {
        let ticket = self.next_ticket;
        self.next_ticket = self.next_ticket + 1;
        let found = self.find(path.as_str());
        proof {
            lemma_find_load_bounds(self.entries@, path@, 0);
        }
        match found {
            Some(i) => {
                let _old_entry = self.entries.remove(i);
                self.entries.insert(
                    i,
                    (path, LoadCell { ticket, status: LoadStatus::Started }),
                );
                proof {
                    assert(self.entries@ =~= old(self).entries@.update(
                        i as int,
                        (path, LoadCell { ticket, status: LoadStatus::Started }),
                    ));
                }
            },
            None => {
                self.entries.push((path, LoadCell { ticket, status: LoadStatus::Started }));
            },
        }
        ticket
    }

    /// Poll a path's status without blocking or consuming anything.
    pub fn status_of(&self, path: &str) -> (r: LoadStatusKind)
        ensures
            r == (match self.status_spec(path@) {
                None => LoadStatusKind::NotRequested,
                Some(LoadStatus::Started) => LoadStatusKind::Started,
                Some(LoadStatus::Complete(_)) => LoadStatusKind::Complete,
                Some(LoadStatus::Error(_)) => LoadStatusKind::Error,
            }),
    {
        let found = self.find(path);
        match found {
            Some(i) => match &self.entries[i].1.status {
                LoadStatus::Started => LoadStatusKind::Started,
                LoadStatus::Complete(_) => LoadStatusKind::Complete,
                LoadStatus::Error(_) => LoadStatusKind::Error,
            },
            None => LoadStatusKind::NotRequested,
        }
    }

    /// Whether a report for this path quoting this ticket would land:
    /// the cell exists, is still `Started`, and is owned by the ticket.
    pub open spec fn report_lands(self, path: Seq<char>, ticket: u64) -> bool {
        match find_load(self.entries@, path, 0) {
            Some(i) => self.entries@[i].1.status is Started && self.entries@[i].1.ticket
                == ticket,
            None => false,
        }
    }

    /// The background fetch reports success, quoting its ticket. The
    /// cell moves to `Complete` only from `Started` and only when the
    /// ticket matches: a terminal status is written once, and a fetch
    /// whose load was overwritten or taken is ignored.
    pub fn complete(&mut self, path: &str, ticket: u64, map: TiledMap)
        requires
            old(self).wf(),
        ensures
            final(self).entries@ == (if old(self).report_lands(path@, ticket) {
                old(self).entries@.update(
                    find_load(old(self).entries@, path@, 0)->0,
                    (
                        old(self).entries@[find_load(old(self).entries@, path@, 0)->0].0,
                        LoadCell { ticket, status: LoadStatus::Complete(map) },
                    ),
                )
            } else {
                old(self).entries@
            }),
            final(self).next_ticket == old(self).next_ticket,
            final(self).wf(),
    {
        let found = self.find(path);
        proof {
            lemma_find_load_bounds(self.entries@, path@, 0);
        }
        match found {
            Some(i) => {
                let (key, cell) = self.entries.remove(i);
                match cell {
                    LoadCell { ticket: t, status: LoadStatus::Started } => {
                        if t == ticket {
                            self.entries.insert(
                                i,
                                (key, LoadCell { ticket, status: LoadStatus::Complete(map) }),
                            );
                            proof {
                                assert(self.entries@ =~= old(self).entries@.update(
                                    i as int,
                                    (
                                        old(self).entries@[i as int].0,
                                        LoadCell { ticket, status: LoadStatus::Complete(map) },
                                    ),
                                ));
                            }
                        } else {
                            self.entries.insert(
                                i,
                                (key, LoadCell { ticket: t, status: LoadStatus::Started }),
                            );
                            proof {
                                assert(self.entries@ =~= old(self).entries@);
                            }
                        }
                    },
                    cell => {
                        self.entries.insert(i, (key, cell));
                        proof {
                            assert(self.entries@ =~= old(self).entries@);
                        }
                    },
                }
            },
            None => {},
        }
    }

    /// The background fetch reports failure with its message, quoting
    /// its ticket. The cell moves to `Error` only from `Started` and
    /// only when the ticket matches.
    pub fn fail(&mut self, path: &str, ticket: u64, msg: String)
        requires
            old(self).wf(),
        ensures
            final(self).entries@ == (if old(self).report_lands(path@, ticket) {
                old(self).entries@.update(
                    find_load(old(self).entries@, path@, 0)->0,
                    (
                        old(self).entries@[find_load(old(self).entries@, path@, 0)->0].0,
                        LoadCell { ticket, status: LoadStatus::Error(msg) },
                    ),
                )
            } else {
                old(self).entries@
            }),
            final(self).next_ticket == old(self).next_ticket,
            final(self).wf(),
    {
        let found = self.find(path);
        proof {
            lemma_find_load_bounds(self.entries@, path@, 0);
        }
        match found {
            Some(i) => {
                let (key, cell) = self.entries.remove(i);
                match cell {
                    LoadCell { ticket: t, status: LoadStatus::Started } => {
                        if t == ticket {
                            self.entries.insert(
                                i,
                                (key, LoadCell { ticket, status: LoadStatus::Error(msg) }),
                            );
                            proof {
                                assert(self.entries@ =~= old(self).entries@.update(
                                    i as int,
                                    (
                                        old(self).entries@[i as int].0,
                                        LoadCell { ticket, status: LoadStatus::Error(msg) },
                                    ),
                                ));
                            }
                        } else {
                            self.entries.insert(
                                i,
                                (key, LoadCell { ticket: t, status: LoadStatus::Started }),
                            );
                            proof {
                                assert(self.entries@ =~= old(self).entries@);
                            }
                        }
                    },
                    cell => {
                        self.entries.insert(i, (key, cell));
                        proof {
                            assert(self.entries@ =~= old(self).entries@);
                        }
                    },
                }
            },
            None => {},
        }
    }

    /// Consume and remove a path's tracked outcome. A fresh `load` for
    /// the same path afterwards starts a machine with no memory of the
    /// prior one.
    pub fn take(&mut self, path: &str) -> (r: Option<LoadStatus>)
        requires
            old(self).wf(),
        ensures
            match find_load(old(self).entries@, path@, 0) {
                Some(i) => r == Some(old(self).entries@[i].1.status) && final(self).entries@
                    == old(self).entries@.remove(i),
                None => r is None && final(self).entries@ == old(self).entries@,
            },
            final(self).next_ticket == old(self).next_ticket,
            final(self).wf(),
    {
        let found = self.find(path);
        proof {
            lemma_find_load_bounds(self.entries@, path@, 0);
        }
        match found {
            Some(i) => {
                let (_key, cell) = self.entries.remove(i);
                Some(cell.status)
            },
            None => None,
        }
    }
}

/// A found entry lies inside the list and names the path; an absent one
/// means no entry at or after `i` names it.
proof fn lemma_find_load_bounds(entries: Seq<(String, LoadCell)>, path: Seq<char>, i: int)
    requires
        0 <= i,
    ensures
        match find_load(entries, path, i) {
            Some(j) => i <= j < entries.len() && entries[j].0@ == path,
            None => forall|j: int| i <= j < entries.len() ==> (#[trigger] entries[j]).0@ != path,
        },
    decreases entries.len() - i,
{
    if 0 <= i < entries.len() && entries[i].0@ != path {
        lemma_find_load_bounds(entries, path, i + 1);
    }
}

} // verus!
