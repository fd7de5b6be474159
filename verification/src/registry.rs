//! The table of the processes under supervision, by process id.

use std::collections::HashMap;
use vstd::prelude::*;

verus! {

broadcast use vstd::std_specs::hash::group_hash_axioms;

/// No process with the given id is under supervision.
#[derive(Clone, Copy, Debug, PartialEq, Eq, Structural)]
pub struct NotFound {
    pub pid: u32,
}

/// The processes under supervision. A process enters when it is spawned and
/// leaves when its loop has finished or a caller deletes it.
pub struct GameBridge<P> {
    process_list: HashMap<u32, P>,
}

impl<P> View for GameBridge<P> {
    type V = Map<u32, P>;

    closed spec fn view(&self) -> Map<u32, P> {
        self.process_list@
    }
}

impl<P> GameBridge<P> {
    /// A table without processes.
    pub fn new() -> (bridge: Self)
        ensures
            bridge@ == Map::<u32, P>::empty(),
    {
        GameBridge { process_list: HashMap::new() }
    }

    /// Puts `process` under the id `pid`, in place of any that had it.
    pub fn insert(&mut self, pid: u32, process: P)
        ensures
            final(self)@ == old(self)@.insert(pid, process),
    {
        self.process_list.insert(pid, process);
    }

    /// The process with the id `pid`.
    pub fn get(&self, pid: u32) -> (r: Result<&P, NotFound>)
        ensures
            match r {
                Ok(process) => self@.contains_key(pid) && *process == self@[pid],
                Err(e) => !self@.contains_key(pid) && e.pid == pid,
            },
    {
        match self.process_list.get(&pid) {
            Some(process) => Ok(process),
            None => Err(NotFound { pid }),
        }
    }

    /// Takes the process with the id `pid` off the table and hands it out.
    pub fn remove(&mut self, pid: u32) -> (r: Result<P, NotFound>)
        ensures
            match r {
                Ok(process) => old(self)@.contains_key(pid) && process == old(self)@[pid]
                    && final(self)@ == old(self)@.remove(pid),
                Err(e) => !old(self)@.contains_key(pid) && e.pid == pid && final(self)@ == old(
                    self,
                )@,
            },
    {
        match self.process_list.remove(&pid) {
            Some(process) => Ok(process),
            None => Err(NotFound { pid }),
        }
    }

    /// The number of processes on the table.
    pub fn len(&self) -> (n: usize)
        ensures
            n == self@.len(),
    {
        self.process_list.len()
    }
}

} // verus!
