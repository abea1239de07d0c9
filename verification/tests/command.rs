use help_overlay::components::command::bytes_equal;
use help_overlay::components::command::bytes_less;
use help_overlay::components::command::same_text;
use help_overlay::components::command::str_equal;
use help_overlay::components::command::str_less;
use help_overlay::components::command::text_precedes;
use help_overlay::components::command::CommandInfo;
use help_overlay::components::command::CommandText;

#[test]
fn a_new_text_is_shown_in_help() {
    let text = CommandText::new("Help [h]", "open this help screen", "General");
    assert_eq!(text.name, "Help [h]");
    assert_eq!(text.desc, "open this help screen");
    assert_eq!(text.group, "General");
    assert!(!text.hide_help);
    let hidden = text.hide_help();
    assert!(hidden.hide_help);
    assert_eq!(hidden.name, "Help [h]");
    assert_eq!(hidden.desc, "open this help screen");
    assert_eq!(hidden.group, "General");
}

#[test]
fn a_new_command_has_rank_zero_and_is_in_the_quick_bar() {
    let text = CommandText::new("Help [h]", "open this help screen", "General");
    let info = CommandInfo::new(text, true, false);
    assert_eq!(info.text, text);
    assert!(info.enabled);
    assert!(!info.available);
    assert!(info.quick_bar);
    assert_eq!(info.order, 0);
    let ranked = info.order(-7);
    assert_eq!(ranked.order, -7);
    assert_eq!(ranked.text, text);
    assert!(ranked.quick_bar);
    let hidden = ranked.hidden();
    assert!(!hidden.quick_bar);
    assert_eq!(hidden.order, -7);
}

#[test]
fn the_quick_bar_shows_what_is_available_and_not_hidden() {
    let text = CommandText::new("a", "b", "c");
    assert!(CommandInfo::new(text, true, true).show_in_quickbar());
    assert!(CommandInfo::new(text, false, true).show_in_quickbar());
    assert!(!CommandInfo::new(text, true, false).show_in_quickbar());
    assert!(!CommandInfo::new(text, true, true).hidden().show_in_quickbar());
}

#[test]
fn print_appends_the_label() {
    let info = CommandInfo::new(CommandText::new("Help [h]", "d", "g"), true, true);
    let mut out = String::from(">");
    info.print(&mut out);
    assert_eq!(out, ">Help [h]");
    info.print(&mut out);
    assert_eq!(out, ">Help [h]Help [h]");
}

#[test]
fn byte_strings_are_ordered_lexicographically() {
    assert!(bytes_less(b"", b"a"));
    assert!(!bytes_less(b"", b""));
    assert!(!bytes_less(b"a", b""));
    assert!(bytes_less(b"a", b"ab"));
    assert!(!bytes_less(b"ab", b"a"));
    assert!(bytes_less(b"ab", b"b"));
    assert!(bytes_less(b"abc", b"abd"));
    assert!(!bytes_less(b"abd", b"abc"));
    assert!(!bytes_less(b"abc", b"abc"));
    assert!(bytes_less(&[0, 255], &[1]));
    assert!(bytes_less(&[127], &[128]));
}

#[test]
fn byte_strings_are_equal_when_every_byte_is() {
    assert!(bytes_equal(b"", b""));
    assert!(bytes_equal(b"abc", b"abc"));
    assert!(!bytes_equal(b"abc", b"abd"));
    assert!(!bytes_equal(b"abc", b"ab"));
    assert!(!bytes_equal(b"", b"a"));
}

#[test]
fn strings_are_ordered_as_the_standard_library_orders_them() {
    let words = ["", "a", "A", "ab", "b", "Z", "\u{e9}", "\u{2191}", "\u{2191}\u{2193}", "z", "~"];
    for a in words.iter() {
        for b in words.iter() {
            assert_eq!(str_less(a, b), a < b);
            assert_eq!(str_equal(a, b), a == b);
        }
    }
}

#[test]
fn texts_are_ordered_by_name_then_description_then_group() {
    let base = CommandText::new("b", "b", "b");
    assert!(text_precedes(&CommandText::new("a", "z", "z"), &base));
    assert!(!text_precedes(&base, &CommandText::new("a", "z", "z")));
    assert!(text_precedes(&CommandText::new("b", "a", "z"), &base));
    assert!(text_precedes(&base, &CommandText::new("b", "c", "a")));
    assert!(text_precedes(&CommandText::new("b", "b", "a"), &base));
    assert!(text_precedes(&base, &CommandText::new("b", "b", "c")));
    assert!(!text_precedes(&base, &base));
    assert!(text_precedes(&base, &base.hide_help()));
    assert!(!text_precedes(&base.hide_help(), &base));
}

#[test]
fn texts_are_the_same_when_every_field_is() {
    let base = CommandText::new("b", "b", "b");
    assert!(same_text(&base, &CommandText::new("b", "b", "b")));
    assert!(!same_text(&base, &CommandText::new("a", "b", "b")));
    assert!(!same_text(&base, &CommandText::new("b", "a", "b")));
    assert!(!same_text(&base, &CommandText::new("b", "b", "a")));
    assert!(!same_text(&base, &base.hide_help()));
}
