//! Tasks that wait for something to happen in the simulation.
//!
//! A waiting task is known by a token that its owner chose. The simulation
//! hands tokens back; the owner wakes the tasks.

use crate::table::Table;
use std::collections::BTreeMap;
use vstd::prelude::*;

verus! {

/// The waiting tasks, by what they wait for.
pub struct WakerRegistry {
    /// Tasks waiting for a connection.
    pub connection_wakers: BTreeMap<u64, u64>,
    /// Tasks waiting for a connection to accept, by listener key.
    pub listener_wakers: BTreeMap<u64, u64>,
    /// Tasks waiting for data.
    pub read_wakers: BTreeMap<u64, u64>,
    /// Sleeping tasks, by task.
    pub task_wakers: BTreeMap<u64, u64>,
    /// Tasks waiting for the end of a write clog.
    pub clog_wakers: Table<u64, Vec<u64>>,
    /// Tasks waiting for the end of a read clog.
    pub read_clog_wakers: Table<u64, Vec<u64>>,
    /// Tasks waiting for the end of a cut.
    pub cut_wakers: Table<u64, Vec<u64>>,
    /// Tasks waiting for space in a send buffer.
    pub send_buffer_wakers: Table<u64, Vec<u64>>,
}

/// What a [`WakerRegistry`] says.
#[verifier::ext_equal]
pub ghost struct WakersView {
    pub connection_wakers: Map<u64, u64>,
    pub listener_wakers: Map<u64, u64>,
    pub read_wakers: Map<u64, u64>,
    pub task_wakers: Map<u64, u64>,
    pub clog_wakers: Map<u64, Seq<u64>>,
    pub read_clog_wakers: Map<u64, Seq<u64>>,
    pub cut_wakers: Map<u64, Seq<u64>>,
    pub send_buffer_wakers: Map<u64, Seq<u64>>,
}

impl View for WakerRegistry {
    type V = WakersView;

    open spec fn view(&self) -> WakersView {
        WakersView {
            connection_wakers: self.connection_wakers@,
            listener_wakers: self.listener_wakers@,
            read_wakers: self.read_wakers@,
            task_wakers: self.task_wakers@,
            clog_wakers: self.clog_wakers@,
            read_clog_wakers: self.read_clog_wakers@,
            cut_wakers: self.cut_wakers@,
            send_buffer_wakers: self.send_buffer_wakers@,
        }
    }
}

/// Nobody waits.
pub open spec fn no_wakers() -> WakersView {
    WakersView {
        connection_wakers: Map::empty(),
        listener_wakers: Map::empty(),
        read_wakers: Map::empty(),
        task_wakers: Map::empty(),
        clog_wakers: Map::empty(),
        read_clog_wakers: Map::empty(),
        cut_wakers: Map::empty(),
        send_buffer_wakers: Map::empty(),
    }
}

/// The task that waits under `key`.
pub open spec fn waiting(m: Map<u64, u64>, key: u64) -> Seq<u64> {
    if m.contains_key(key) {
        seq![m[key]]
    } else {
        Seq::empty()
    }
}

/// The tasks that wait under `key`, where several can, in the order in which they came.
pub open spec fn all_waiting(m: Map<u64, Seq<u64>>, key: u64) -> Seq<u64> {
    if m.contains_key(key) {
        m[key]
    } else {
        Seq::empty()
    }
}

/// The tasks that wait under some keys, key after key.
pub open spec fn all_waiting_in_turn(m: Map<u64, Seq<u64>>, keys: Seq<u64>) -> Seq<u64>
    decreases keys.len(),
{
    if keys.len() == 0 {
        Seq::empty()
    } else {
        all_waiting_in_turn(m, keys.drop_last()) + all_waiting(m, keys.last())
    }
}

/// One more task waits under `key`.
pub open spec fn waiter_added(m: Map<u64, Seq<u64>>, key: u64, token: u64) -> Map<u64, Seq<u64>> {
    if m.contains_key(key) {
        m.insert(key, m[key].push(token))
    } else {
        m.insert(key, seq![token])
    }
}

impl WakerRegistry {
    /// The tables are well formed.
    pub open spec fn wf(&self) -> bool {
        &&& self.clog_wakers.wf()
        &&& self.read_clog_wakers.wf()
        &&& self.cut_wakers.wf()
        &&& self.send_buffer_wakers.wf()
    }

    /// Nobody waits.
    pub fn new() -> (w: Self)
        ensures
            w.wf(),
            w@ == no_wakers(),
    {
        WakerRegistry {
            connection_wakers: BTreeMap::new(),
            listener_wakers: BTreeMap::new(),
            read_wakers: BTreeMap::new(),
            task_wakers: BTreeMap::new(),
            clog_wakers: Table::new(),
            read_clog_wakers: Table::new(),
            cut_wakers: Table::new(),
            send_buffer_wakers: Table::new(),
        }
    }
}

impl Default for WakerRegistry {
    fn default() -> (w: Self)
        ensures
            w.wf(),
            w@ == no_wakers(),
    {
        WakerRegistry::new()
    }
}

/// Adds `token` to the tasks that wait under `key`.
pub fn add_waiter(wakers: &mut Table<u64, Vec<u64>>, key: u64, token: u64)
    requires
        old(wakers).wf(),
    ensures
        final(wakers).wf(),
        final(wakers)@ == waiter_added(old(wakers)@, key, token),
{
    if let Some(tokens) = wakers.get_mut(&key) {
        tokens.push(token);
        return;
    }
    let mut tokens: Vec<u64> = Vec::new();
    tokens.push(token);
    assert(tokens@ =~= seq![token]);
    wakers.insert(key, tokens);
}

} // verus!
