//! The help overlay: a popup that lists the commands at hand, by group,
//! with a cursor that the arrow keys move.

use crate::aggregate::aggregate;
use crate::aggregate::aggregated;
use crate::aggregate::is_aggregate;
use crate::aggregate::lemma_aggregated_is_aggregate;
use crate::components::command::CommandInfo;
use crate::components::CommandBlocking;
use crate::components::Component;
use crate::keys::exit_popup;
use crate::keys::move_down;
use crate::keys::move_up;
use crate::keys::open_help;
use crate::keys::Event;
use crate::layout::help_text;
use crate::layout::layout;
use crate::layout::spans;
use crate::layout::StyledText;
use crate::strings::commands::close_popup;
use crate::strings::commands::help_open;
use crate::strings::commands::scroll;
use crate::strings::help_footer;
use crate::strings::help_title;
use crate::strings::spec_footer_prefix;
use vstd::prelude::*;

verus! {

/// The width of the popup, in columns.
pub const POPUP_WIDTH: u16 = 65;

/// The height of the popup, in rows.
pub const POPUP_HEIGHT: u16 = 24;

/// The rank of the command that opens help: near the end of every list.
pub const HELP_OPEN_ORDER: i8 = 99;

/// The help overlay.
pub struct HelpComponent {
    cmds: Vec<CommandInfo>,
    visible: bool,
    selection: u16,
}

/// The state of the help overlay as a value.
pub struct HelpState {
    /// The aggregated list of commands.
    pub cmds: Seq<CommandInfo>,
    /// Whether the overlay is shown.
    pub visible: bool,
    /// The cursor: the place of the selected command, counted through the
    /// commands as they are shown, which is the order of the list.
    pub selection: u16,
}

impl View for HelpComponent {
    type V = HelpState;

    closed spec fn view(&self) -> HelpState {
        HelpState { cmds: self.cmds@, visible: self.visible, selection: self.selection }
    }
}

/// Where the cursor stands after a step forward (`inc`) or backward from
/// `selection` in a list of `len` commands: one further, but neither below
/// the first command nor beyond the last, nor out of the range of the
/// cursor. In an empty list it stands at the first place.
pub open spec fn moved(selection: u16, len: nat, inc: bool) -> u16 {
    let target: int = if inc {
        if selection < u16::MAX {
            selection + 1
        } else {
            selection as int
        }
    } else {
        if selection > 0 {
            selection - 1
        } else {
            0
        }
    };
    if target <= last_place(len) {
        target as u16
    } else {
        last_place(len) as u16
    }
}

/// The place of the last command of a list of `len` commands; the first
/// place where the list is empty.
pub open spec fn last_place(len: nat) -> int {
    if len == 0 {
        0
    } else {
        len - 1
    }
}

/// After a step the cursor is within the list, wherever it stood before and
/// whichever way the step went.
pub proof fn lemma_moved_in_range(selection: u16, len: nat, inc: bool)
    ensures
        0 <= moved(selection, len, inc) <= last_place(len),
        selection <= last_place(len) ==> moved(selection, len, inc) == if inc {
            if selection < last_place(len) && selection < u16::MAX {
                (selection + 1) as u16
            } else {
                selection
            }
        } else {
            if selection > 0 {
                (selection - 1) as u16
            } else {
                selection
            }
        },
{
}

/// A step of the cursor: whether it goes forward, and how many commands the
/// list holds when it is taken.
pub struct Step {
    pub inc: bool,
    pub len: nat,
}

/// Where the cursor stands after a sequence of steps from `selection`. The
/// list may change between the steps.
pub open spec fn moved_along(selection: u16, steps: Seq<Step>) -> u16
    decreases steps.len(),
{
    if steps.len() == 0 {
        selection
    } else {
        moved(moved_along(selection, steps.drop_last()), steps.last().len, steps.last().inc)
    }
}

/// After any sequence of steps the cursor is within the list as it was at
/// the last step, however many steps were taken and however the list
/// changed between them.
pub proof fn lemma_moved_along_in_range(selection: u16, steps: Seq<Step>)
    requires
        steps.len() > 0,
    ensures
        0 <= moved_along(selection, steps) <= last_place(steps.last().len),
{
    lemma_moved_in_range(
        moved_along(selection, steps.drop_last()),
        steps.last().len,
        steps.last().inc,
    );
}

/// How many lines of the text are scrolled out of view above: the cursor
/// stays within the upper third of the popup.
pub open spec fn scroll_of(selection: u16) -> u16 {
    if selection >= POPUP_HEIGHT / 3 {
        (selection - POPUP_HEIGHT / 3) as u16
    } else {
        0
    }
}

/// The commands of the overlay itself, as it reports them.
pub open spec fn own_command(text: crate::components::command::CommandText, order: i8) -> CommandInfo {
    CommandInfo { text, enabled: true, quick_bar: true, available: true, order }
}

/// What a list of reported commands holds once the overlay has added its
/// own. While it is shown the overlay clears the list, unless every command
/// is asked for, and reports scrolling and closing; while it is hidden, or
/// when every command is asked for, it reports the opening of help.
pub open spec fn advertised(visible: bool, force_all: bool, before: Seq<CommandInfo>) -> Seq<
    CommandInfo,
> {
    let kept = if visible && !force_all {
        Seq::empty()
    } else {
        before
    };
    let shown = if visible {
        seq![own_command(scroll(), 0), own_command(close_popup(), 0)]
    } else {
        Seq::empty()
    };
    let hidden = if !visible || force_all {
        seq![own_command(help_open(), HELP_OPEN_ORDER)]
    } else {
        Seq::empty()
    };
    kept + shown + hidden
}

impl HelpState {
    /// Whether the state is well formed: the list is an aggregated list.
    pub open spec fn wf(self) -> bool {
        is_aggregate(self.cmds)
    }

    /// Whether the overlay consumes the event: while it is shown every
    /// event, while it is hidden the key that opens it.
    pub open spec fn consumes(self, ev: Event) -> bool {
        self.visible || ev == Event::Key(open_help())
    }

    /// The state after the event. While shown, the overlay closes on the
    /// key that closes popups and moves the cursor on the keys that move
    /// it; while hidden, it opens on the key that opens help. Nothing else
    /// changes the state.
    pub open spec fn after(self, ev: Event) -> HelpState {
        if self.visible {
            if ev == Event::Key(exit_popup()) {
                HelpState { visible: false, ..self }
            } else if ev == Event::Key(move_down()) {
                HelpState { selection: moved(self.selection, self.cmds.len(), true), ..self }
            } else if ev == Event::Key(move_up()) {
                HelpState { selection: moved(self.selection, self.cmds.len(), false), ..self }
            } else {
                self
            }
        } else if ev == Event::Key(open_help()) {
            HelpState { visible: true, ..self }
        } else {
            self
        }
    }
}

/// What the overlay draws when it is shown.
pub struct HelpPopup {
    /// The width of the popup, in columns.
    pub width: u16,
    /// The height of the popup, in rows.
    pub height: u16,
    /// The title, in the border.
    pub title: &'static str,
    /// The text of the body.
    pub text: Vec<StyledText>,
    /// How many lines of the text are scrolled out of view above.
    pub scroll: u16,
    /// The footer, aligned to the right.
    pub footer: String,
}

impl HelpComponent {
    #[verifier::type_invariant]
    closed spec fn inv(self) -> bool {
        is_aggregate(self.cmds@)
    }

    /// A hidden overlay with no commands and the cursor at the first place.
    pub fn new() -> (help: Self)
        ensures
            help@ == (HelpState { cmds: Seq::empty(), visible: false, selection: 0 }),
            help@.wf(),
    {
        Self { cmds: Vec::new(), visible: false, selection: 0 }
    }

    /// Replaces the list of commands by the aggregated list of `cmds`. The
    /// cursor stays where it is, also where the list has become shorter.
    pub fn set_cmds(&mut self, cmds: Vec<CommandInfo>)
        ensures
            aggregated(cmds@, final(self)@.cmds),
            final(self)@.wf(),
            final(self)@.visible == old(self)@.visible,
            final(self)@.selection == old(self)@.selection,
    {
        let list = aggregate(&cmds);
        proof {
            lemma_aggregated_is_aggregate(cmds@, list@);
        }
        self.cmds = list;
    }

    /// Moves the cursor one step, forward with `inc` and backward without.
    pub fn move_selection(&mut self, inc: bool)
        ensures
            final(self)@ == (HelpState {
                selection: moved(old(self)@.selection, old(self)@.cmds.len(), inc),
                ..old(self)@
            }),
            0 <= final(self)@.selection <= last_place(final(self)@.cmds.len()),
    {
        let new_selection = if inc {
            self.selection.saturating_add(1)
        } else {
            self.selection.saturating_sub(1)
        };
        let last = self.cmds.len().saturating_sub(1);
        proof {
            use_type_invariant(&*self);
        }
        self.selection = if new_selection as usize <= last {
            new_selection
        } else {
            last as u16
        };
    }

    /// The text of the overlay.
    pub fn get_text(&self) -> (txt: Vec<StyledText>)
        ensures
            spans(txt@) == layout(self@.cmds, self@.selection as int),
            txt@.len() == layout(self@.cmds, self@.selection as int).len(),
    {
        help_text(&self.cmds, self.selection)
    }

    /// How many lines of the text are scrolled out of view above.
    pub fn scroll(&self) -> (scroll: u16)
        ensures
            scroll == scroll_of(self@.selection),
    {
        self.selection.saturating_sub(POPUP_HEIGHT / 3)
    }

    /// What there is to draw: nothing while the overlay is hidden, and the
    /// popup while it is shown. `version` is the version of the
    /// application, for the footer.
    pub fn popup(&self, version: &str) -> (popup: Option<HelpPopup>)
        ensures
            popup is Some <==> self@.visible,
            popup matches Some(p) ==> {
                &&& p.width == POPUP_WIDTH
                &&& p.height == POPUP_HEIGHT
                &&& p.title == help_title()
                &&& spans(p.text@) == layout(self@.cmds, self@.selection as int)
                &&& p.scroll == scroll_of(self@.selection)
                &&& p.footer@ == spec_footer_prefix()@ + version@
            },
    {
        if self.visible {
            Some(
                HelpPopup {
                    width: POPUP_WIDTH,
                    height: POPUP_HEIGHT,
                    title: help_title(),
                    text: self.get_text(),
                    scroll: self.scroll(),
                    footer: help_footer(version),
                },
            )
        } else {
            None
        }
    }

    /// The cursor.
    pub fn selection(&self) -> (selection: u16)
        ensures
            selection == self@.selection,
    {
        self.selection
    }

    /// The aggregated list of commands.
    pub fn cmds(&self) -> (cmds: &Vec<CommandInfo>)
        ensures
            cmds@ == self@.cmds,
            self@.wf(),
    {
        proof {
            use_type_invariant(self);
        }
        &self.cmds
    }
}

impl Component for HelpComponent {
    open spec fn visible(&self) -> bool {
        self@.visible
    }

    fn commands(&self, out: &mut Vec<CommandInfo>, force_all: bool) -> (blocking: CommandBlocking)
        ensures
            final(out)@ == advertised(self@.visible, force_all, old(out)@),
            blocking == if self@.visible {
                CommandBlocking::Blocking
            } else {
                CommandBlocking::PassingOn
            },
    {
        if self.visible && !force_all {
            out.clear();
        }
        if self.visible {
            out.push(CommandInfo::new(scroll(), true, true));
            out.push(CommandInfo::new(close_popup(), true, true));
        }
        if !self.visible || force_all {
            out.push(CommandInfo::new(help_open(), true, true).order(HELP_OPEN_ORDER));
        }
        assert(out@ =~= advertised(self@.visible, force_all, old(out)@));
        if self.visible {
            CommandBlocking::Blocking
        } else {
            CommandBlocking::PassingOn
        }
    }

    fn event(&mut self, ev: Event) -> (consumed: bool)
        ensures
            consumed == old(self)@.consumes(ev),
            final(self)@ == old(self)@.after(ev),
    {
        if self.visible {
            if let Event::Key(e) = ev {
                if e == exit_popup() {
                    self.close();
                } else if e == move_down() {
                    self.move_selection(true);
                } else if e == move_up() {
                    self.move_selection(false);
                }
            }
            true
        } else if ev == Event::Key(open_help()) {
            self.show();
            true
        } else {
            false
        }
    }

    fn is_visible(&self) -> (visible: bool) {
        self.visible
    }

    fn close(&mut self)
        ensures
            final(self)@ == (HelpState { visible: false, ..old(self)@ }),
    {
        proof {
            use_type_invariant(&*self);
        }
        self.visible = false;
    }

    fn show(&mut self)
        ensures
            final(self)@ == (HelpState { visible: true, ..old(self)@ }),
    {
        proof {
            use_type_invariant(&*self);
        }
        self.visible = true;
    }
}

} // verus!
