//! A dispatch engine for hierarchical state machines.
//!
//! The states of a machine form a fixed tree. They are held in a table and
//! named by their position in it; the table holds them by value where they
//! are of one type, by reference where they are not. An event is offered to
//! the active state and then to its ancestors until one answers; the answer
//! is carried out by leaving and entering states around their common
//! ancestor. Ancestor chains live in buffers of `MAX_DEPTH` entries: the
//! engine allocates nothing.
//!
//! A defect of the state graph (an event that no state handles, a chain
//! that does not fit its buffer, a transition between two trees) does not
//! stop the program: `dispatch` reports it as a `Fault`, before any hook has
//! run.
//!
//! `state` holds what a state machine is made of, `hierarchy` and
//! `semantics` say what a dispatch means, `machine` is the engine, and
//! `laws` holds what follows for every machine.

pub mod hierarchy;
pub mod laws;
pub mod machine;
pub mod semantics;
pub mod state;

pub use machine::StateMachine;
pub use state::{Behavior, Fault, Inert, State, StateId, Transition, MAX_DEPTH};
