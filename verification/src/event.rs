//! What a run asks of the world around it, in the order in which it asks.

use vstd::prelude::*;

verus! {

/// One step of a run that is visible from outside. The interpreter only
/// records events; whoever drives it runs the shell commands and prints.
#[derive(Debug, Clone, PartialEq, Eq)]
pub enum Event {
    /// Run this command line in the shell. Variables are expanded already.
    Exec(String),
    /// A variable was assigned: name and value.
    Assign(String, String),
    /// A parameter was bound to an argument: name and value.
    Param(String, String),
    /// The named dependency is about to run.
    Depends(String),
    /// The path named a sub-command that the node does not declare:
    /// the missing name, then the node's name.
    SubcommandNotFound(String, String),
    /// The named dependency was not run, because dependencies were nested
    /// deeper than the run allows.
    DepthLimit(String),
}

/// What an `Event` says.
pub enum EventView {
    Exec(Seq<char>),
    Assign(Seq<char>, Seq<char>),
    Param(Seq<char>, Seq<char>),
    Depends(Seq<char>),
    SubcommandNotFound(Seq<char>, Seq<char>),
    DepthLimit(Seq<char>),
}

impl View for Event {
    type V = EventView;

    open spec fn view(&self) -> EventView {
        match self {
            Event::Exec(cmd) => EventView::Exec(cmd@),
            Event::Assign(name, value) => EventView::Assign(name@, value@),
            Event::Param(name, value) => EventView::Param(name@, value@),
            Event::Depends(name) => EventView::Depends(name@),
            Event::SubcommandNotFound(name, parent) => EventView::SubcommandNotFound(
                name@,
                parent@,
            ),
            Event::DepthLimit(name) => EventView::DepthLimit(name@),
        }
    }
}

/// What a sequence of events says.
pub open spec fn events_view(events: Seq<Event>) -> Seq<EventView> {
    Seq::new(events.len(), |i: int| events[i]@)
}

} // verus!
