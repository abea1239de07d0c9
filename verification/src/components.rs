//! Components of the user interface and the commands they report.

use crate::components::command::CommandInfo;
use crate::keys::Event;
use vstd::prelude::*;

pub mod command;
pub mod help;

verus! {

/// Whether a component lets the components after it report their commands.
#[derive(Clone, Copy, Debug, PartialEq, Eq, Structural)]
pub enum CommandBlocking {
    /// The component has the input to itself.
    Blocking,
    /// The components after it are asked as well.
    PassingOn,
}

/// A part of the user interface that reports its commands and takes input
/// events.
pub trait Component {
    /// Whether the component is on screen.
    spec fn visible(&self) -> bool;

    /// Adds to `out` the commands that the component offers right now.
    /// With `force_all` every command is asked for, also those that the
    /// component would keep back.
    fn commands(&self, out: &mut Vec<CommandInfo>, force_all: bool) -> CommandBlocking;

    /// Hands an input event to the component, and tells whether the
    /// component has consumed it.
    fn event(&mut self, ev: Event) -> bool;

    /// Whether the component is on screen.
    fn is_visible(&self) -> (visible: bool)
        ensures
            visible == self.visible(),
    ;

    /// Takes the component off the screen.
    fn close(&mut self);

    /// Puts the component on screen.
    fn show(&mut self);
}

/// A component that is on screen blocks the components after it.
pub fn visibility_blocking<T: Component>(comp: &T) -> (blocking: CommandBlocking)
    ensures
        blocking == if comp.visible() {
            CommandBlocking::Blocking
        } else {
            CommandBlocking::PassingOn
        },
{
    if comp.is_visible() {
        CommandBlocking::Blocking
    } else {
        CommandBlocking::PassingOn
    }
}

} // verus!
