//! The commands that the help overlay reports of its own.

use crate::components::command::CommandText;
use vstd::prelude::*;

verus! {

/// The group of the commands that are at hand everywhere.
pub open spec fn spec_group_general() -> &'static str {
    "General"
}

/// Scrolling in the focused view.
pub open spec fn spec_scroll() -> CommandText {
    CommandText {
        name: "Scroll [\u{2191}\u{2193}]",
        desc: "scroll up or down in focused view",
        group: spec_group_general(),
        hide_help: false,
    }
}

/// Scrolling in the focused view.
#[verifier::when_used_as_spec(spec_scroll)]
pub fn scroll() -> (text: CommandText)
    ensures
        text == spec_scroll(),
{
    CommandText::new("Scroll [\u{2191}\u{2193}]", "scroll up or down in focused view", "General")
}

/// Opening the help overlay.
pub open spec fn spec_help_open() -> CommandText {
    CommandText {
        name: "Help [h]",
        desc: "open this help screen",
        group: spec_group_general(),
        hide_help: false,
    }
}

/// Opening the help overlay.
#[verifier::when_used_as_spec(spec_help_open)]
pub fn help_open() -> (text: CommandText)
    ensures
        text == spec_help_open(),
{
    CommandText::new("Help [h]", "open this help screen", "General")
}

/// Closing the popup that is open.
pub open spec fn spec_close_popup() -> CommandText {
    CommandText {
        name: "Close [esc]",
        desc: "close overlay (e.g commit, help)",
        group: spec_group_general(),
        hide_help: false,
    }
}

/// Closing the popup that is open.
#[verifier::when_used_as_spec(spec_close_popup)]
pub fn close_popup() -> (text: CommandText)
    ensures
        text == spec_close_popup(),
{
    CommandText::new("Close [esc]", "close overlay (e.g commit, help)", "General")
}

} // verus!
