//! Finite state machines driven by a transition table, as used by every
//! component's step function.
use vstd::prelude::*;
use std::collections::HashMap;
use crate::event::{Event, EventView};

verus! {

/// The values of a list of events.
pub open spec fn views(es: Seq<Event>) -> Seq<EventView> {
    es.map_values(|e: Event| e@)
}

/// The table as a map from a state to the states it may move to.
pub open spec fn table_view(t: Map<u8, Vec<u8>>) -> Map<u8, Seq<u8>> {
    t.map_values(|v: Vec<u8>| v@)
}

/// Whether a table allows the move from `from` to `to`.
pub open spec fn allows(t: Map<u8, Seq<u8>>, from: u8, to: u8) -> bool {
    t.contains_key(from) && t[from].contains(to)
}

/// Whether a list of states holds `s`.
fn lists_state(states: &Vec<u8>, s: u8) -> (r: bool)
    ensures
        r == states@.contains(s),
{
    let mut i: usize = 0;
    while i < states.len()
        invariant
            i <= states@.len(),
            forall|j: int| 0 <= j < i ==> states@[j] != s,
        decreases states.len() - i,
    {
        if states[i] == s {
            return true;
        }
        i += 1;
    }
    false
}

/// A state machine with a queue of events waiting to be handled.
pub struct FSM {
    pub state: u8,
    queue: Vec<Event>,
    transition_table: HashMap<u8, Vec<u8>>,
}

/// A move that the table does not allow.
#[derive(Clone, Copy, Debug, PartialEq, Eq, Structural)]
pub enum FSMError {
    TransitionError,
}

impl FSM {
    /// The current state.
    pub closed spec fn current(&self) -> u8 {
        self.state
    }

    /// The current state.
    pub fn get_state(&self) -> (r: u8)
        ensures
            r == self.current(),
    {
        self.state
    }

    /// The events waiting, oldest first.
    pub closed spec fn queue(&self) -> Seq<EventView> {
        views(self.queue@)
    }

    /// The transition table.
    pub closed spec fn table(&self) -> Map<u8, Seq<u8>> {
        table_view(self.transition_table@)
    }

    /// A machine in `init_state` with an empty queue.
    pub fn new(init_state: u8, transition_table: HashMap<u8, Vec<u8>>) -> (r: FSM)
        ensures
            r.current() == init_state,
            r.queue() == Seq::<EventView>::empty(),
            r.table() == table_view(transition_table@),
    {
        let r = FSM { state: init_state, queue: Vec::new(), transition_table };
        assert(r.queue() =~= Seq::<EventView>::empty());
        r
    }

    /// Moves to `next_state` if the table allows it from the current state.
    pub fn transition(&mut self, next_state: u8) -> (r: Result<(), FSMError>)
        ensures
            final(self).queue() == old(self).queue(),
            final(self).table() == old(self).table(),
            allows(old(self).table(), old(self).current(), next_state) ==> (r is Ok
                && final(self).current() == next_state),
            !allows(old(self).table(), old(self).current(), next_state) ==> (r
                == Err::<(), FSMError>(FSMError::TransitionError) && final(self).current() == old(self).current()),
    {
        match self.transition_table.get(&self.state) {
            Some(states) => {
                if lists_state(states, next_state) {
                    self.state = next_state;
                    Ok(())
                } else {
                    Err(FSMError::TransitionError)
                }
            },
            None => Err(FSMError::TransitionError),
        }
    }

    /// Appends an event to the queue.
    pub fn push_event(&mut self, event: Event)
        ensures
            final(self).current() == old(self).current(),
            final(self).table() == old(self).table(),
            final(self).queue() == old(self).queue().push(event@),
    {
        self.queue.push(event);
        assert(self.queue() =~= old(self).queue().push(event@));
    }

    /// Takes the oldest event from the queue.
    pub fn pop_event(&mut self) -> (r: Option<Event>)
        ensures
            final(self).current() == old(self).current(),
            final(self).table() == old(self).table(),
            old(self).queue().len() == 0 ==> (r is None && final(self).queue() == old(
                self,
            ).queue()),
            old(self).queue().len() > 0 ==> (r matches Some(e) && e@ == old(self).queue()[0]
                && final(self).queue() == old(self).queue().skip(1)),
    {
        if self.queue.len() == 0 {
            None
        } else {
            let e = self.queue.remove(0);
            assert(self.queue() =~= old(self).queue().skip(1));
            Some(e)
        }
    }

    /// Whether no event is waiting.
    pub fn is_queue_empty(&self) -> (r: bool)
        ensures
            r == (self.queue().len() == 0),
    {
        self.queue.len() == 0
    }
}

/// A failure of a `StateMachine` move.
#[derive(Clone, Copy, Debug, PartialEq, Eq, Structural)]
pub enum StateMachineError {
    UnknownState,
    TrainsitionError,
}

/// A state machine without a queue, which tells an unknown current state
/// apart from a forbidden move.
pub struct StateMachine {
    pub state: u8,
    pub map: HashMap<u8, Vec<u8>>,
}

impl StateMachine {
    /// A machine in `init_state`.
    pub fn new(init_state: u8, transition_map: HashMap<u8, Vec<u8>>) -> (r: StateMachine)
        ensures
            r.state == init_state,
            r.map@ == transition_map@,
    {
        StateMachine { state: init_state, map: transition_map }
    }

    /// Moves to `target_state` if the map allows it from the current state.
    pub fn transition(&mut self, target_state: u8) -> (r: Result<(), StateMachineError>)
        ensures
            final(self).map@ == old(self).map@,
            !old(self).map@.contains_key(old(self).state) ==> (r == Err::<(), StateMachineError>(
                StateMachineError::UnknownState,
            ) && final(self).state == old(self).state),
            allows(table_view(old(self).map@), old(self).state, target_state) ==> (r is Ok
                && final(self).state == target_state),
            old(self).map@.contains_key(old(self).state) && !allows(
                table_view(old(self).map@),
                old(self).state,
                target_state,
            ) ==> (r == Err::<(), StateMachineError>(StateMachineError::TrainsitionError)
                && final(self).state == old(self).state),
    {
        match self.map.get(&self.state) {
            Some(states) => {
                if lists_state(states, target_state) {
                    self.state = target_state;
                    Ok(())
                } else {
                    Err(StateMachineError::TrainsitionError)
                }
            },
            None => Err(StateMachineError::UnknownState),
        }
    }
}

} // verus!
