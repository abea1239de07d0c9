use help_overlay::aggregate::aggregate;
use help_overlay::components::command::CommandInfo;
use help_overlay::components::command::CommandText;
use help_overlay::components::help::HelpComponent;
use help_overlay::components::help::POPUP_HEIGHT;
use help_overlay::components::help::POPUP_WIDTH;
use help_overlay::components::Component;
use help_overlay::hash::hash;
use help_overlay::layout::entry_text;
use help_overlay::layout::header_text;
use help_overlay::layout::help_text;
use help_overlay::layout::StyledText;
use help_overlay::layout::TextStyle;
use help_overlay::strings::help_footer;
use help_overlay::strings::help_title;

fn cmd(name: &'static str, desc: &'static str, group: &'static str, order: i8) -> CommandInfo {
    CommandInfo::new(CommandText::new(name, desc, group), true, true).order(order)
}

fn header(content: &str) -> StyledText {
    StyledText { content: String::from(content), style: TextStyle::Header }
}

fn entry(content: &str, selected: bool) -> StyledText {
    StyledText { content: String::from(content), style: TextStyle::Entry { selected } }
}

const NAMES: [&str; 12] = ["a", "b", "c", "d", "e", "f", "g", "h", "i", "j", "k", "l"];

fn many(n: usize) -> Vec<CommandInfo> {
    (0..n).map(|i| cmd(NAMES[i], "what it does", "Group", 0)).collect()
}

#[test]
fn a_header_is_the_group_on_a_line() {
    assert_eq!(header_text("General"), header("General\n"));
    assert_eq!(header_text(""), header("\n"));
}

#[test]
fn an_entry_is_marked_and_described_when_selected() {
    let e = cmd("Help [h]", "open this help screen", "General", 0);
    assert_eq!(entry_text(&e, false), entry(" Help [h]\n", false));
    assert_eq!(entry_text(&e, true), entry(">Help [h]\n  open this help screen\n", true));
}

#[test]
fn an_empty_list_has_no_text() {
    assert!(help_text(&Vec::new(), 0).is_empty());
    assert!(help_text(&Vec::new(), 7).is_empty());
    let mut help = HelpComponent::new();
    help.show();
    assert!(help.get_text().is_empty());
    help.move_selection(true);
    help.move_selection(false);
    assert_eq!(help.selection(), 0);
    assert!(help.get_text().is_empty());
}

#[test]
fn commands_of_a_group_are_shown_by_rank() {
    let a = cmd("A", "first", "X", 1);
    let b = cmd("B", "second", "X", 0);
    let c = cmd("C", "third", "Y", 0);
    let mut help = HelpComponent::new();
    help.set_cmds(vec![a, b, c]);
    let x_block = |first: usize, cursor: usize| {
        vec![
            header("X\n"),
            if cursor == first { entry(">B\n  second\n", true) } else { entry(" B\n", false) },
            if cursor == first + 1 { entry(">A\n  first\n", true) } else { entry(" A\n", false) },
        ]
    };
    let y_block = |first: usize, cursor: usize| {
        vec![
            header("Y\n"),
            if cursor == first { entry(">C\n  third\n", true) } else { entry(" C\n", false) },
        ]
    };
    let expected = |cursor: usize| {
        let mut all = Vec::new();
        if hash("X") <= hash("Y") {
            all.extend(x_block(0, cursor));
            all.extend(y_block(2, cursor));
        } else {
            all.extend(y_block(0, cursor));
            all.extend(x_block(1, cursor));
        }
        all
    };
    assert_eq!(help.get_text(), expected(0));
    help.move_selection(true);
    assert_eq!(help.get_text(), expected(1));
    help.move_selection(true);
    assert_eq!(help.get_text(), expected(2));
    help.move_selection(true);
    assert_eq!(help.get_text(), expected(2));
}

#[test]
fn the_text_is_the_same_for_every_order_of_the_batch() {
    let a = cmd("A", "first", "X", 1);
    let b = cmd("B", "second", "X", 0);
    let c = cmd("C", "third", "Y", 0);
    let text = help_text(&aggregate(&vec![a, b, c]), 1);
    assert_eq!(help_text(&aggregate(&vec![c, b, a]), 1), text);
    assert_eq!(help_text(&aggregate(&vec![b, c, a, b]), 1), text);
}

#[test]
fn the_text_shows_the_aggregated_list_in_its_order() {
    let batch = vec![
        cmd("d", "", "G", 0),
        cmd("z", "", "H", 1),
        cmd("a", "", "G", 5),
        cmd("y", "", "H", 1),
        cmd("c", "", "G", -2),
        cmd("x", "", "I", 0),
        cmd("b", "", "G", 0),
    ];
    let list = aggregate(&batch);
    let text = help_text(&list, u16::MAX);
    let shown: Vec<String> = text
        .iter()
        .filter(|t| t.style != TextStyle::Header)
        .map(|t| t.content.clone())
        .collect();
    let listed: Vec<String> = list.iter().map(|e| format!(" {}\n", e.text.name)).collect();
    assert_eq!(shown, listed);
    assert_eq!(text.iter().filter(|t| t.style == TextStyle::Header).count(), 3);
    assert_eq!(text.len(), 10);
}

#[test]
fn commands_of_one_rank_keep_the_order_of_the_list() {
    let list = vec![
        cmd("d", "", "G", 3),
        cmd("a", "", "G", 0),
        cmd("e", "", "G", -128),
        cmd("b", "", "G", 0),
        cmd("f", "", "G", 127),
        cmd("c", "", "G", 0),
        cmd("g", "", "G", -1),
    ];
    let text = help_text(&list, 3);
    let expected = vec![
        header("G\n"),
        entry(" e\n", false),
        entry(" g\n", false),
        entry(" a\n", false),
        entry(">b\n  \n", true),
        entry(" c\n", false),
        entry(" d\n", false),
        entry(" f\n", false),
    ];
    assert_eq!(text, expected);
}

#[test]
fn every_run_of_a_group_gets_a_header() {
    let list = vec![
        cmd("a", "", "X", 0),
        cmd("b", "", "Y", 0),
        cmd("c", "", "Y", -1),
        cmd("d", "", "X", 0),
    ];
    let expected = vec![
        header("X\n"),
        entry(" a\n", false),
        header("Y\n"),
        entry(" c\n", false),
        entry(" b\n", false),
        header("X\n"),
        entry(">d\n  \n", true),
    ];
    assert_eq!(help_text(&list, 3), expected);
}

#[test]
fn a_cursor_beyond_the_list_selects_nothing() {
    let list = vec![cmd("a", "x", "G", 0), cmd("b", "y", "G", 0)];
    let expected = vec![header("G\n"), entry(" a\n", false), entry(" b\n", false)];
    assert_eq!(help_text(&list, 2), expected);
    assert_eq!(help_text(&list, u16::MAX), expected);
}

#[test]
fn a_hidden_overlay_draws_nothing() {
    let mut help = HelpComponent::new();
    help.set_cmds(many(3));
    assert!(help.popup("v1.0").is_none());
}

#[test]
fn a_shown_overlay_draws_the_popup() {
    let mut help = HelpComponent::new();
    help.set_cmds(many(3));
    help.show();
    help.move_selection(true);
    let popup = help.popup("v1.0").unwrap();
    assert_eq!(popup.width, 65);
    assert_eq!(popup.height, 24);
    assert_eq!(POPUP_WIDTH, 65);
    assert_eq!(POPUP_HEIGHT, 24);
    assert_eq!(popup.title, "Help: all commands");
    assert_eq!(popup.footer, "gitui v1.0");
    assert_eq!(popup.scroll, 0);
    assert_eq!(popup.text, help.get_text());
    assert_eq!(
        popup.text,
        vec![
            header("Group\n"),
            entry(" a\n", false),
            entry(">b\n  what it does\n", true),
            entry(" c\n", false),
        ]
    );
}

#[test]
fn the_text_scrolls_once_the_cursor_leaves_the_upper_third() {
    let mut help = HelpComponent::new();
    help.set_cmds(many(12));
    help.show();
    let mut scrolls = Vec::new();
    for _ in 0..12 {
        scrolls.push(help.scroll());
        assert_eq!(help.popup("").unwrap().scroll, help.scroll());
        help.move_selection(true);
    }
    assert_eq!(scrolls, vec![0, 0, 0, 0, 0, 0, 0, 0, 0, 1, 2, 3]);
}

#[test]
fn the_title_and_the_footer() {
    assert_eq!(help_title(), "Help: all commands");
    assert_eq!(help_footer("0.2.1"), "gitui 0.2.1");
    assert_eq!(help_footer(""), "gitui ");
}
