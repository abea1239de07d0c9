use help_overlay::components::command::CommandInfo;
use help_overlay::components::command::CommandText;
use help_overlay::components::help::HelpComponent;
use help_overlay::components::visibility_blocking;
use help_overlay::components::CommandBlocking;
use help_overlay::components::Component;
use help_overlay::keys::exit_popup;
use help_overlay::keys::move_down;
use help_overlay::keys::move_up;
use help_overlay::keys::no_mod;
use help_overlay::keys::open_help;
use help_overlay::keys::Event;
use help_overlay::keys::KeyCode;
use help_overlay::keys::KeyEvent;
use help_overlay::keys::KeyModifiers;
use help_overlay::keys::MODIFIERS_CONTROL;
use help_overlay::keys::MODIFIERS_NONE;
use help_overlay::strings::commands::close_popup;
use help_overlay::strings::commands::help_open;
use help_overlay::strings::commands::scroll;

const NAMES: [&str; 10] = ["a", "b", "c", "d", "e", "f", "g", "h", "i", "j"];

fn many(n: usize) -> Vec<CommandInfo> {
    (0..n).map(|i| CommandInfo::new(CommandText::new(NAMES[i], "", "Group"), true, true)).collect()
}

fn other() -> CommandInfo {
    CommandInfo::new(CommandText::new("Commit [c]", "open commit popup", "Changes"), true, true)
}

#[test]
fn the_keys_of_the_overlay() {
    let none = KeyModifiers { bits: MODIFIERS_NONE };
    assert_eq!(open_help(), KeyEvent { code: KeyCode::Char('h'), modifiers: none });
    assert_eq!(exit_popup(), KeyEvent { code: KeyCode::Esc, modifiers: none });
    assert_eq!(move_up(), KeyEvent { code: KeyCode::Up, modifiers: none });
    assert_eq!(move_down(), KeyEvent { code: KeyCode::Down, modifiers: none });
    assert_eq!(no_mod(KeyCode::F(3)), KeyEvent { code: KeyCode::F(3), modifiers: none });
}

#[test]
fn the_overlay_starts_hidden() {
    let help = HelpComponent::new();
    assert!(!help.is_visible());
    assert_eq!(help.selection(), 0);
    assert!(help.cmds().is_empty());
}

#[test]
fn the_help_key_opens_the_hidden_overlay() {
    let mut help = HelpComponent::new();
    assert!(help.event(Event::Key(open_help())));
    assert!(help.is_visible());
}

#[test]
fn a_hidden_overlay_passes_every_other_event_on() {
    let mut help = HelpComponent::new();
    help.set_cmds(many(5));
    let events = [
        Event::Key(exit_popup()),
        Event::Key(move_down()),
        Event::Key(move_up()),
        Event::Key(no_mod(KeyCode::Char('H'))),
        Event::Key(no_mod(KeyCode::Char('x'))),
        Event::Key(KeyEvent {
            code: KeyCode::Char('h'),
            modifiers: KeyModifiers { bits: MODIFIERS_CONTROL },
        }),
        Event::Key(no_mod(KeyCode::Enter)),
        Event::Mouse,
        Event::Resize(80, 24),
    ];
    for ev in events.iter() {
        assert!(!help.event(*ev));
        assert!(!help.is_visible());
        assert_eq!(help.selection(), 0);
    }
}

#[test]
fn a_shown_overlay_consumes_every_event() {
    let mut help = HelpComponent::new();
    help.set_cmds(many(5));
    help.show();
    let events = [
        Event::Key(open_help()),
        Event::Key(no_mod(KeyCode::Char('x'))),
        Event::Key(no_mod(KeyCode::Enter)),
        Event::Key(KeyEvent { code: KeyCode::Down, modifiers: KeyModifiers { bits: MODIFIERS_CONTROL } }),
        Event::Mouse,
        Event::Resize(80, 24),
    ];
    for ev in events.iter() {
        assert!(help.event(*ev));
        assert!(help.is_visible());
        assert_eq!(help.selection(), 0);
        assert_eq!(help.cmds().len(), 5);
    }
}

#[test]
fn the_arrow_keys_move_the_cursor_of_the_shown_overlay() {
    let mut help = HelpComponent::new();
    help.set_cmds(many(3));
    help.show();
    assert!(help.event(Event::Key(move_down())));
    assert_eq!(help.selection(), 1);
    assert!(help.event(Event::Key(move_down())));
    assert_eq!(help.selection(), 2);
    assert!(help.event(Event::Key(move_down())));
    assert_eq!(help.selection(), 2);
    assert!(help.event(Event::Key(move_up())));
    assert_eq!(help.selection(), 1);
    assert!(help.event(Event::Key(move_up())));
    assert!(help.event(Event::Key(move_up())));
    assert_eq!(help.selection(), 0);
    assert!(help.is_visible());
}

#[test]
fn the_escape_key_closes_the_shown_overlay() {
    let mut help = HelpComponent::new();
    help.set_cmds(many(3));
    help.show();
    help.move_selection(true);
    assert!(help.event(Event::Key(exit_popup())));
    assert!(!help.is_visible());
    assert_eq!(help.selection(), 1);
    assert_eq!(help.cmds().len(), 3);
    assert!(!help.event(Event::Key(exit_popup())));
}

#[test]
fn show_and_close_set_the_visibility() {
    let mut help = HelpComponent::new();
    help.show();
    assert!(help.is_visible());
    help.show();
    assert!(help.is_visible());
    help.close();
    assert!(!help.is_visible());
    help.close();
    assert!(!help.is_visible());
}

#[test]
fn opening_does_not_rebuild_the_list() {
    let mut help = HelpComponent::new();
    help.set_cmds(many(4));
    let before = help.cmds().clone();
    help.event(Event::Key(open_help()));
    assert_eq!(*help.cmds(), before);
    assert_eq!(help.selection(), 0);
}

#[test]
fn a_hidden_overlay_reports_the_help_command() {
    let help = HelpComponent::new();
    let mut out = vec![other()];
    assert_eq!(help.commands(&mut out, false), CommandBlocking::PassingOn);
    assert_eq!(out, vec![other(), CommandInfo::new(help_open(), true, true).order(99)]);
    let mut out = vec![other()];
    assert_eq!(help.commands(&mut out, true), CommandBlocking::PassingOn);
    assert_eq!(out, vec![other(), CommandInfo::new(help_open(), true, true).order(99)]);
}

#[test]
fn a_shown_overlay_reports_its_two_commands_alone() {
    let mut help = HelpComponent::new();
    help.show();
    let mut out = vec![other(), other()];
    assert_eq!(help.commands(&mut out, false), CommandBlocking::Blocking);
    assert_eq!(
        out,
        vec![CommandInfo::new(scroll(), true, true), CommandInfo::new(close_popup(), true, true)]
    );
}

#[test]
fn a_shown_overlay_keeps_the_others_when_all_are_asked_for() {
    let mut help = HelpComponent::new();
    help.show();
    let mut out = vec![other()];
    assert_eq!(help.commands(&mut out, true), CommandBlocking::Blocking);
    assert_eq!(
        out,
        vec![
            other(),
            CommandInfo::new(scroll(), true, true),
            CommandInfo::new(close_popup(), true, true),
            CommandInfo::new(help_open(), true, true).order(99),
        ]
    );
}

#[test]
fn the_commands_of_the_overlay() {
    assert_eq!(scroll().name, "Scroll [\u{2191}\u{2193}]");
    assert_eq!(scroll().desc, "scroll up or down in focused view");
    assert_eq!(close_popup().name, "Close [esc]");
    assert_eq!(close_popup().desc, "close overlay (e.g commit, help)");
    assert_eq!(help_open().name, "Help [h]");
    assert_eq!(help_open().desc, "open this help screen");
    for text in [scroll(), close_popup(), help_open()].iter() {
        assert_eq!(text.group, "General");
        assert!(!text.hide_help);
    }
}

#[test]
fn a_visible_component_blocks() {
    let mut help = HelpComponent::new();
    assert_eq!(visibility_blocking(&help), CommandBlocking::PassingOn);
    help.show();
    assert_eq!(visibility_blocking(&help), CommandBlocking::Blocking);
}
