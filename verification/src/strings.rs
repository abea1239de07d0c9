//! The texts that the help overlay shows of its own.

use vstd::prelude::*;
use vstd::string::*;

pub mod commands;

verus! {

/// The title of the help overlay.
pub open spec fn spec_help_title() -> &'static str {
    "Help: all commands"
}

/// The title of the help overlay.
#[verifier::when_used_as_spec(spec_help_title)]
pub fn help_title() -> (title: &'static str)
    ensures
        title == spec_help_title(),
{
    "Help: all commands"
}

/// What the footer of the help overlay says before the version.
pub open spec fn spec_footer_prefix() -> &'static str {
    "gitui "
}

/// The footer of the help overlay: the name of the application and its
/// version.
pub fn help_footer(version: &str) -> (footer: String)
    ensures
        footer@ == spec_footer_prefix()@ + version@,
{
    let mut footer = String::from_str("gitui ");
    footer.append(version);
    footer
}

} // verus!
