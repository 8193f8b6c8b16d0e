use vstd::prelude::*;

verus! {

/// The identity of a state: its position in the machine's state table.
pub type StateId = usize;

/// Capacity of an ancestor chain: the deepest hierarchy a structural
/// transition can cross.
pub const MAX_DEPTH: usize = 8;

/// An action attached to a transition. The engine runs it after the exit
/// phase and before the entry phase.
pub trait Behavior<C, E> {
    /// The context that `run` leaves behind. An action that does nothing
    /// need not say so.
    open spec fn run_spec(&self, context: C, event: E) -> C {
        context
    }

    /// Carries the action out on the context.
    fn run(&self, context: &mut C, event: &E)
        ensures
            *final(context) == self.run_spec(*old(context), *event),
    ;
}

/// What a state decides when it is offered an event.
#[verifier::reject_recursive_types(C)]
#[verifier::reject_recursive_types(E)]
pub enum Transition<C: 'static, E: 'static> {
    /// The state does not recognise the event; its parent is asked next.
    Unknown,
    /// No structural change: only the behavior runs.
    Internal(Option<&'static dyn Behavior<C, E>>),
    /// Move to the target without leaving or re-entering the common ancestor.
    Local(StateId, Option<&'static dyn Behavior<C, E>>),
    /// Move to the target, leaving and re-entering the common ancestor.
    External(StateId, Option<&'static dyn Behavior<C, E>>),
}

/// The three defects of a state graph that stop a dispatch. A fault shows
/// that the graph was built wrongly: it is to be mended where the states are
/// defined, not handled at each call.
#[derive(Clone, Copy, Debug, PartialEq, Eq, Structural)]
pub enum Fault {
    /// No state from the active one up to its root recognised the event.
    Unhandled,
    /// An ancestor chain holds more than `MAX_DEPTH` states.
    DepthExceeded,
    /// Source and target of a transition share no ancestor.
    NoCommonAncestor,
}

/// One node of the hierarchy. A state names its parent and its transition
/// targets by their identity in the state table. Each exec method is tied to
/// a spec function, so that the engine's contracts can say what a dispatch
/// does to the context. The spec functions default to a root without hooks
/// that declines every event; a state overrides those that differ. `Inert`
/// is the state that overrides none.
///
/// A state never changes its parent, and its methods cannot reach the
/// machine that calls them: only the engine moves the active state.
pub trait State<C: 'static, E: 'static> {
    /// A measure that strictly falls from a state to its parent within a
    /// well-formed table: it rules out cycles.
    open spec fn rank(&self) -> nat {
        0
    }

    /// The parent's identity, `None` for a root.
    open spec fn parent_spec(&self) -> Option<StateId> {
        None
    }

    /// The context after the entry hook.
    open spec fn entry_spec(&self, context: C) -> C {
        context
    }

    /// The decision on an event, and the context after deciding.
    open spec fn transition_spec(&self, context: C, event: E) -> (Transition<C, E>, C) {
        (Transition::Unknown, context)
    }

    /// The context after the exit hook.
    open spec fn exit_spec(&self, context: C) -> C {
        context
    }

    /// The parent of this state, `None` for a root.
    fn parent(&self) -> (r: Option<StateId>)
        ensures
            r == self.parent_spec(),
    ;

    /// The hook that the engine runs when it activates this state.
    fn entry(&self, context: &mut C)
        ensures
            *final(context) == self.entry_spec(*old(context)),
    ;

    /// Decides what `event` means to this state. `Unknown` hands the event
    /// on to the parent. The decision may change the context at once, or
    /// name a behavior for the engine to run between exits and entries.
    fn transition(&self, context: &mut C, event: &E) -> (t: Transition<C, E>)
        ensures
            (t, *final(context)) == self.transition_spec(*old(context), *event),
    ;

    /// The hook that the engine runs when it deactivates this state.
    fn exit(&self, context: &mut C)
        ensures
            *final(context) == self.exit_spec(*old(context)),
    ;
}

/// The state that the defaults describe: a root without hooks that declines
/// every event. It serves as it is for a state that only holds others
/// together. A state with a hook or a decision of its own implements `State`
/// itself, and may hand each method that it leaves at the default on to
/// `Inert`.
#[derive(Clone, Copy, Debug)]
pub struct Inert;

impl<C: 'static, E: 'static> State<C, E> for Inert {
    fn parent(&self) -> (r: Option<StateId>) {
        None
    }

    fn entry(&self, context: &mut C) {
    }

    fn transition(&self, context: &mut C, event: &E) -> (t: Transition<C, E>) {
        Transition::Unknown
    }

    fn exit(&self, context: &mut C) {
    }
}

/// A reference to a state is a state: a table may hold its states by
/// reference, states of different types among them.
impl<'a, C: 'static, E: 'static, T: State<C, E> + ?Sized> State<C, E> for &'a T {
    open spec fn rank(&self) -> nat {
        (**self).rank()
    }

    open spec fn parent_spec(&self) -> Option<StateId> {
        (**self).parent_spec()
    }

    open spec fn entry_spec(&self, context: C) -> C {
        (**self).entry_spec(context)
    }

    open spec fn transition_spec(&self, context: C, event: E) -> (Transition<C, E>, C) {
        (**self).transition_spec(context, event)
    }

    open spec fn exit_spec(&self, context: C) -> C {
        (**self).exit_spec(context)
    }

    fn parent(&self) -> (r: Option<StateId>) {
        (**self).parent()
    }

    fn entry(&self, context: &mut C) {
        (**self).entry(context)
    }

    fn transition(&self, context: &mut C, event: &E) -> (t: Transition<C, E>) {
        (**self).transition(context, event)
    }

    fn exit(&self, context: &mut C) {
        (**self).exit(context)
    }
}

impl Fault {
    /// The text that names the fault.
    pub open spec fn message_spec(self) -> Seq<char> {
        match self {
            Fault::Unhandled => "Unhandled event passed through root state!"@,
            Fault::DepthExceeded => "State tree depth limit exceeded!"@,
            Fault::NoCommonAncestor => "Common ancestor has not been found!"@,
        }
    }

    /// The text that names the fault, one for each kind.
    pub fn message(&self) -> (r: &'static str)
        ensures
            r@ == self.message_spec(),
    {
        match self {
            Fault::Unhandled => "Unhandled event passed through root state!",
            Fault::DepthExceeded => "State tree depth limit exceeded!",
            Fault::NoCommonAncestor => "Common ancestor has not been found!",
        }
    }
}

impl<C: 'static, E: 'static> Transition<C, E> {
    /// The state that a structural transition names.
    pub open spec fn target_spec(self) -> Option<StateId> {
        match self {
            Transition::Local(target, _) => Some(target),
            Transition::External(target, _) => Some(target),
            _ => None,
        }
    }
}

} // verus!
