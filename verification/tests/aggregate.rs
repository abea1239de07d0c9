use help_overlay::aggregate::aggregate;
use help_overlay::aggregate::dedup_by_text;
use help_overlay::aggregate::less_eq;
use help_overlay::aggregate::shown_only;
use help_overlay::aggregate::sort_by;
use help_overlay::aggregate::SortKey;
use help_overlay::components::command::CommandInfo;
use help_overlay::components::command::CommandText;
use help_overlay::components::help::HelpComponent;
use help_overlay::hash::hash;
use std::collections::hash_map::DefaultHasher;
use std::hash::Hash;
use std::hash::Hasher;

fn cmd(name: &'static str, desc: &'static str, group: &'static str) -> CommandInfo {
    CommandInfo::new(CommandText::new(name, desc, group), true, true)
}

fn std_hash(s: &str) -> u64 {
    let mut hasher = DefaultHasher::new();
    s.hash(&mut hasher);
    hasher.finish()
}

fn mixed_batch() -> Vec<CommandInfo> {
    vec![
        cmd("Commit [c]", "open commit popup", "Changes"),
        cmd("Help [h]", "open this help screen", "General"),
        cmd("Stage [enter]", "stage the selected file", "Changes"),
        cmd("Right [\u{2192}]", "view changes", "Diff"),
        cmd("Quit [esc]", "quit the application", "General"),
        cmd("Scroll [\u{2191}\u{2193}]", "scroll up or down", "Diff"),
        cmd("Reset [D]", "revert the selected file", "Changes"),
    ]
}

#[test]
fn hash_is_that_of_the_default_hasher() {
    assert_eq!(hash("General"), std_hash("General"));
    assert_eq!(hash(""), std_hash(""));
    assert_eq!(hash("Diff"), std_hash("Diff"));
}

#[test]
fn hash_depends_on_the_string() {
    assert_ne!(hash("General"), hash("Changes"));
    assert_ne!(hash("a"), hash("b"));
    assert_eq!(hash("Changes"), hash("Changes"));
}

#[test]
fn hidden_commands_are_left_out() {
    let hidden = CommandInfo::new(
        CommandText::new("Secret [s]", "not for help", "General").hide_help(),
        true,
        true,
    );
    let batch = vec![
        cmd("Commit [c]", "open commit popup", "Changes"),
        hidden,
        cmd("Help [h]", "open this help screen", "General"),
        hidden,
    ];
    let list = aggregate(&batch);
    assert_eq!(list.len(), 2);
    assert!(list.iter().all(|e| !e.text.hide_help));
    assert!(list.iter().all(|e| e.text.name != "Secret [s]"));
}

#[test]
fn a_hidden_twin_does_not_hide_the_shown_command() {
    let shown = cmd("Commit [c]", "open commit popup", "Changes");
    let hidden = CommandInfo::new(shown.text.hide_help(), true, true);
    let list = aggregate(&vec![hidden, shown, hidden]);
    assert_eq!(list, vec![shown]);
}

#[test]
fn exact_duplicates_appear_once() {
    let a = cmd("Commit [c]", "open commit popup", "Changes");
    let b = cmd("Help [h]", "open this help screen", "General");
    let list = aggregate(&vec![a, b, a, a, b]);
    assert_eq!(list.len(), 2);
    assert_eq!(list.iter().filter(|e| **e == a).count(), 1);
    assert_eq!(list.iter().filter(|e| **e == b).count(), 1);
}

#[test]
fn of_two_reports_of_a_command_the_first_is_kept() {
    let first = cmd("Commit [c]", "open commit popup", "Changes").order(5);
    let second = cmd("Commit [c]", "open commit popup", "Changes").order(-3).hidden();
    assert_eq!(aggregate(&vec![first, second]), vec![first]);
    assert_eq!(aggregate(&vec![second, first]), vec![second]);
}

#[test]
fn commands_differ_by_any_of_their_texts() {
    let a = cmd("Commit [c]", "open commit popup", "Changes");
    let other_name = cmd("Commit [C]", "open commit popup", "Changes");
    let other_desc = cmd("Commit [c]", "open the commit popup", "Changes");
    let other_group = cmd("Commit [c]", "open commit popup", "General");
    let list = aggregate(&vec![a, other_name, other_desc, other_group]);
    assert_eq!(list.len(), 4);
}

#[test]
fn empty_and_hidden_batches_give_an_empty_list() {
    assert!(aggregate(&Vec::new()).is_empty());
    let hidden = CommandInfo::new(CommandText::new("a", "b", "c").hide_help(), true, true);
    assert!(aggregate(&vec![hidden, hidden]).is_empty());
}

#[test]
fn groups_stand_together_in_the_order_of_their_hashes() {
    let list = aggregate(&mixed_batch());
    assert_eq!(list.len(), 7);
    for i in 1..list.len() {
        assert!(std_hash(list[i - 1].text.group) <= std_hash(list[i].text.group));
    }
    for i in 0..list.len() {
        for k in i..list.len() {
            if list[i].text.group == list[k].text.group {
                for j in i..k {
                    assert_eq!(list[j].text.group, list[i].text.group);
                }
            }
        }
    }
}

#[test]
fn within_a_group_the_list_is_in_the_order_of_the_texts() {
    let list = aggregate(&mixed_batch());
    let changes: Vec<&str> =
        list.iter().filter(|e| e.text.group == "Changes").map(|e| e.text.name).collect();
    assert_eq!(changes, vec!["Commit [c]", "Reset [D]", "Stage [enter]"]);
    let general: Vec<&str> =
        list.iter().filter(|e| e.text.group == "General").map(|e| e.text.name).collect();
    assert_eq!(general, vec!["Help [h]", "Quit [esc]"]);
}

#[test]
fn the_order_of_the_batch_does_not_matter() {
    let batch = mixed_batch();
    let mut reversed = mixed_batch();
    reversed.reverse();
    let mut rotated = mixed_batch();
    rotated.rotate_left(3);
    let list = aggregate(&batch);
    assert_eq!(aggregate(&reversed), list);
    assert_eq!(aggregate(&rotated), list);
}

#[test]
fn aggregating_again_gives_the_same_list() {
    let list = aggregate(&mixed_batch());
    assert_eq!(aggregate(&mixed_batch()), list);
    assert_eq!(aggregate(&list), list);
}

#[test]
fn the_expected_list_of_a_small_batch() {
    let a = cmd("A", "first", "X").order(1);
    let b = cmd("B", "second", "X").order(0);
    let c = cmd("C", "third", "Y").order(0);
    let list = aggregate(&vec![a, b, c]);
    let expected = if std_hash("X") <= std_hash("Y") { vec![b, a, c] } else { vec![c, b, a] };
    assert_eq!(list, expected);
    assert_eq!(aggregate(&vec![c, b, a]), expected);
    assert_eq!(aggregate(&vec![b, a, c, a, b]), expected);
    let xs: Vec<&str> = list.iter().filter(|e| e.text.group == "X").map(|e| e.text.name).collect();
    assert_eq!(xs, vec!["B", "A"]);
    let ys: Vec<&str> = list.iter().filter(|e| e.text.group == "Y").map(|e| e.text.name).collect();
    assert_eq!(ys, vec!["C"]);
}

#[test]
fn within_a_group_the_list_is_by_rank_and_then_by_text() {
    let batch = vec![
        cmd("d", "", "G").order(0),
        cmd("a", "", "G").order(5),
        cmd("c", "", "G").order(-2),
        cmd("b", "", "G").order(0),
        cmd("a", "z", "G").order(0),
        cmd("e", "", "G").order(-2),
    ];
    let names: Vec<(&str, &str, i8)> =
        aggregate(&batch).iter().map(|e| (e.text.name, e.text.desc, e.order)).collect();
    assert_eq!(
        names,
        vec![("c", "", -2), ("e", "", -2), ("a", "z", 0), ("b", "", 0), ("d", "", 0), ("a", "", 5)]
    );
}

#[test]
fn set_cmds_stores_the_aggregated_list() {
    let mut help = HelpComponent::new();
    help.set_cmds(mixed_batch());
    assert_eq!(*help.cmds(), aggregate(&mixed_batch()));
    help.set_cmds(Vec::new());
    assert!(help.cmds().is_empty());
}

#[test]
fn shown_only_keeps_the_order() {
    let a = cmd("b", "", "g");
    let h = CommandInfo::new(CommandText::new("x", "", "g").hide_help(), true, true);
    let c = cmd("a", "", "g");
    let (shown, _) = shown_only(&vec![a, h, c, h, a]);
    assert_eq!(shown, vec![a, c, a]);
}

#[test]
fn sort_by_text_is_stable() {
    let b1 = cmd("b", "", "g").order(1);
    let a = cmd("a", "", "g");
    let b2 = cmd("b", "", "g").order(2);
    let ab = cmd("a", "b", "g");
    let (sorted, _) = sort_by(&vec![b1, a, b2, ab], SortKey::Text);
    assert_eq!(sorted, vec![a, ab, b1, b2]);
    let (sorted, _) = sort_by(&vec![b2, ab, b1, a], SortKey::Text);
    assert_eq!(sorted, vec![a, ab, b2, b1]);
}

#[test]
fn sort_by_group_hash_is_stable() {
    let x1 = cmd("1", "", "X");
    let y1 = cmd("2", "", "Y");
    let x2 = cmd("0", "", "X");
    let y2 = cmd("3", "", "Y");
    let (sorted, _) = sort_by(&vec![y1, x1, y2, x2], SortKey::GroupHash);
    let expected =
        if std_hash("X") <= std_hash("Y") { vec![x1, x2, y1, y2] } else { vec![y1, y2, x1, x2] };
    assert_eq!(sorted, expected);
}

#[test]
fn sort_by_rank_is_stable() {
    let a = cmd("a", "", "X").order(1);
    let b = cmd("b", "", "Y").order(-1);
    let c = cmd("c", "", "X").order(1);
    let d = cmd("d", "", "Y").order(-128);
    let e = cmd("e", "", "X").order(127);
    let (sorted, _) = sort_by(&vec![e, c, b, a, d], SortKey::Rank);
    assert_eq!(sorted, vec![d, b, c, a, e]);
    let (sorted, _) = sort_by(&Vec::new(), SortKey::Rank);
    assert!(sorted.is_empty());
}

#[test]
fn dedup_keeps_the_first_of_each_run() {
    let a1 = cmd("a", "", "g").order(1);
    let a2 = cmd("a", "", "g").order(2);
    let b = cmd("b", "", "g");
    let (unique, _) = dedup_by_text(&vec![a1, a2, b, b, a2, a1]);
    assert_eq!(unique, vec![a1, b, a2]);
    let (unique, _) = dedup_by_text(&Vec::new());
    assert!(unique.is_empty());
}

#[test]
fn less_eq_compares_by_the_key() {
    let a = cmd("a", "z", "X");
    let b = cmd("b", "a", "X");
    assert!(less_eq(SortKey::Text, &a, &b));
    assert!(!less_eq(SortKey::Text, &b, &a));
    assert!(less_eq(SortKey::Text, &a, &a));
    assert!(less_eq(SortKey::GroupHash, &a, &b));
    assert!(less_eq(SortKey::GroupHash, &b, &a));
    let y = cmd("a", "z", "Y");
    assert_eq!(less_eq(SortKey::GroupHash, &a, &y), std_hash("X") <= std_hash("Y"));
    assert!(less_eq(SortKey::Rank, &a, &b));
    assert!(less_eq(SortKey::Rank, &b, &a));
    assert!(less_eq(SortKey::Rank, &a.order(-1), &b));
    assert!(!less_eq(SortKey::Rank, &a, &b.order(-1)));
}
