//! The text layout builder: from the aggregated list and the cursor to the
//! styled text of the help overlay.
//!
//! The list is walked by group. Each group gets a header with its name,
//! then one entry per command, in the order of their ranks. The entry under
//! the cursor is marked, and its description follows it.

use crate::components::command::CommandInfo;
use itertools::Itertools;
use vstd::prelude::*;
use vstd::string::*;

verus! {

/// How a piece of text is drawn.
#[derive(Clone, Copy, Debug, PartialEq, Eq)]
pub enum TextStyle {
    /// The header of a group: drawn reversed, to set the groups apart.
    Header,
    /// A command: drawn as the theme draws an enabled entry that is
    /// selected or not.
    Entry { selected: bool },
}

/// A piece of text with its style. The text ends with a line break, and
/// holds a second line where it is the selected command.
#[derive(Debug, PartialEq, Eq)]
pub struct StyledText {
    pub content: String,
    pub style: TextStyle,
}

/// A styled text as a value: its characters and its style.
pub struct Span {
    pub content: Seq<char>,
    pub style: TextStyle,
}

impl View for StyledText {
    type V = Span;

    open spec fn view(&self) -> Span {
        Span { content: self.content@, style: self.style }
    }
}

/// The values of a sequence of styled texts.
pub open spec fn spans(texts: Seq<StyledText>) -> Seq<Span> {
    Seq::new(texts.len(), |i: int| texts[i]@)
}

/// The entries of `run` with rank `rank`, in the order of `run`.
pub open spec fn of_rank(run: Seq<CommandInfo>, rank: int) -> Seq<CommandInfo> {
    run.filter(|e: CommandInfo| e.order == rank)
}

/// The entries of `run` with a rank up to `rank`: those of the lowest rank
/// first, and those of one rank in the order of `run`.
pub open spec fn sorted_up_to(run: Seq<CommandInfo>, rank: int) -> Seq<CommandInfo>
    decreases rank + 129,
{
    if rank < -128 {
        Seq::empty()
    } else {
        sorted_up_to(run, rank - 1) + of_rank(run, rank)
    }
}

/// The entries of `run` in the order of their ranks; entries of one rank
/// keep the order of `run`.
pub open spec fn sorted_by_rank(run: Seq<CommandInfo>) -> Seq<CommandInfo> {
    sorted_up_to(run, 127)
}

/// Whether `out` is `run` sorted by rank with entries of one rank kept in
/// order: the ranks in `out` ascend, and for every rank the entries of that
/// rank are the same, in the same order, in both.
pub open spec fn sorted_stably(run: Seq<CommandInfo>, out: Seq<CommandInfo>) -> bool {
    &&& forall|i: int, j: int| 0 <= i < j < out.len() ==> out[i].order <= out[j].order
    &&& forall|rank: int| #[trigger] of_rank(out, rank) == of_rank(run, rank)
}

/// The runs of a list: its maximal stretches of neighbours of one group, in
/// the order of the list.
pub open spec fn groups(cmds: Seq<CommandInfo>) -> Seq<Seq<CommandInfo>>
    decreases cmds.len(),
{
    if cmds.len() == 0 {
        Seq::empty()
    } else {
        let before = groups(cmds.drop_last());
        if cmds.len() >= 2 && cmds[cmds.len() - 2].text.group@ == cmds.last().text.group@ {
            before.drop_last().push(before.last().push(cmds.last()))
        } else {
            before.push(seq![cmds.last()])
        }
    }
}

/// Whether `runs` cuts `cmds` into its runs: joined they give `cmds`, none
/// is empty, the entries of a run are of one group, and a run ends where
/// the group changes.
pub open spec fn grouped(cmds: Seq<CommandInfo>, runs: Seq<Seq<CommandInfo>>) -> bool {
    &&& runs.flatten() == cmds
    &&& forall|r: int| 0 <= r < runs.len() ==> (#[trigger] runs[r]).len() > 0
    &&& forall|r: int, i: int|
        0 <= r < runs.len() && 0 <= i < runs[r].len() ==> (#[trigger] runs[r][i]).text.group@
            == runs[r][0].text.group@
    &&& forall|r: int|
        0 < r < runs.len() ==> (#[trigger] runs[r])[0].text.group@ != runs[r - 1].last().text.group@
}

/// The contents of the runs that a vector of vectors holds.
pub open spec fn run_views(runs: Seq<Vec<CommandInfo>>) -> Seq<Seq<CommandInfo>> {
    Seq::new(runs.len(), |r: int| runs[r]@)
}

/// Calls `Itertools::group_by` on the entries, with the group as the key,
/// and collects each group it yields. Trusted: the groups are the runs of
/// neighbours with equal keys, in the order of the list, each with its
/// entries in the order of the list.
#[verifier::external_body]
pub(crate) fn group_by_group(cmds: &Vec<CommandInfo>) -> (runs: Vec<Vec<CommandInfo>>)
    ensures
        grouped(cmds@, run_views(runs@)),
{
    let grouped = cmds.iter().group_by(|e| e.text.group);
    grouped.into_iter().map(|(_, run)| run.copied().collect()).collect()
}

/// Calls `Itertools::sorted_by_key` on the entries, with the rank as the
/// key. Trusted: the result ascends by rank, and holds for every rank the
/// same entries in the same order as `run` does; that is, the sort is
/// stable.
#[verifier::external_body]
pub(crate) fn sorted_by_order(run: &Vec<CommandInfo>) -> (out: Vec<CommandInfo>)
    ensures
        sorted_stably(run@, out@),
{
    run.iter().sorted_by_key(|e| e.order).copied().collect()
}

/// The entries of `run` with a rank up to `rank`, in the order of `run`.
pub open spec fn up_to_rank(run: Seq<CommandInfo>, rank: int) -> Seq<CommandInfo> {
    run.filter(|e: CommandInfo| e.order <= rank)
}

/// What one more entry at the end of a run adds to its entries of a rank,
/// and to those up to a rank.
proof fn lemma_rank_push(run: Seq<CommandInfo>, e: CommandInfo, rank: int)
    ensures
        of_rank(run.push(e), rank) == if e.order == rank {
            of_rank(run, rank).push(e)
        } else {
            of_rank(run, rank)
        },
        up_to_rank(run.push(e), rank) == if e.order <= rank {
            up_to_rank(run, rank).push(e)
        } else {
            up_to_rank(run, rank)
        },
{
    reveal(Seq::filter);
    assert(run.push(e).drop_last() =~= run);
}

/// What a run holds of a rank, and up to a rank, when all its ranks are
/// below or above it.
proof fn lemma_rank_bounds(run: Seq<CommandInfo>, rank: int)
    ensures
        (forall|i: int| 0 <= i < run.len() ==> (#[trigger] run[i]).order != rank) ==> of_rank(
            run,
            rank,
        ) == Seq::<CommandInfo>::empty(),
        (forall|i: int| 0 <= i < run.len() ==> (#[trigger] run[i]).order > rank) ==> up_to_rank(
            run,
            rank,
        ) == Seq::<CommandInfo>::empty(),
        (forall|i: int| 0 <= i < run.len() ==> (#[trigger] run[i]).order <= rank) ==> up_to_rank(
            run,
            rank,
        ) == run,
        (forall|i: int| 0 <= i < run.len() ==> (#[trigger] run[i]).order == rank) ==> of_rank(
            run,
            rank,
        ) == run,
    decreases run.len(),
{
    if run.len() == 0 {
        reveal(Seq::filter);
        assert(run =~= Seq::<CommandInfo>::empty());
    } else {
        let front = run.drop_last();
        assert(run =~= front.push(run.last()));
        lemma_rank_bounds(front, rank);
        lemma_rank_push(front, run.last(), rank);
        assert forall|i: int| 0 <= i < front.len() implies (#[trigger] front[i]) == run[i] by {}
    }
}

/// In a run whose ranks ascend, the entries up to a rank are those below
/// the rank and then those of the rank.
proof fn lemma_up_to_rank_step(run: Seq<CommandInfo>, rank: int)
    requires
        forall|i: int, j: int| 0 <= i < j < run.len() ==> run[i].order <= run[j].order,
    ensures
        up_to_rank(run, rank) == up_to_rank(run, rank - 1) + of_rank(run, rank),
    decreases run.len(),
{
    if run.len() == 0 {
        reveal(Seq::filter);
        assert(up_to_rank(run, rank) =~= up_to_rank(run, rank - 1) + of_rank(run, rank));
    } else {
        let front = run.drop_last();
        let e = run.last();
        assert(run =~= front.push(e));
        assert forall|i: int, j: int| 0 <= i < j < front.len() implies front[i].order
            <= front[j].order by {
            assert(front[i] == run[i] && front[j] == run[j]);
        }
        lemma_up_to_rank_step(front, rank);
        lemma_rank_push(front, e, rank);
        lemma_rank_push(front, e, rank - 1);
        if e.order < rank {
            assert forall|i: int| 0 <= i < front.len() implies (#[trigger] front[i]).order
                != rank by {
                assert(front[i] == run[i]);
                assert(run[i].order <= run[run.len() - 1].order);
            }
            lemma_rank_bounds(front, rank);
        }
        assert(up_to_rank(run, rank) =~= up_to_rank(run, rank - 1) + of_rank(run, rank));
    }
}

/// A stable sort by rank puts first the entries of the lowest rank, in the
/// order they had, then those of the next rank, and so on.
proof fn lemma_sorted_up_to(run: Seq<CommandInfo>, out: Seq<CommandInfo>, rank: int)
    requires
        sorted_stably(run, out),
        -129 <= rank,
    ensures
        sorted_up_to(run, rank) == up_to_rank(out, rank),
    decreases rank + 129,
{
    if rank < -128 {
        lemma_rank_bounds(out, rank);
    } else {
        lemma_sorted_up_to(run, out, rank - 1);
        lemma_up_to_rank_step(out, rank);
        assert(of_rank(out, rank) == of_rank(run, rank));
    }
}

/// There is one stable sort of a run by rank.
pub proof fn lemma_sorted_by_rank(run: Seq<CommandInfo>, out: Seq<CommandInfo>)
    requires
        sorted_stably(run, out),
    ensures
        out == sorted_by_rank(run),
{
    lemma_sorted_up_to(run, out, 127);
    lemma_rank_bounds(out, 127);
}

/// What is sorted up to a rank holds no higher rank, ascends, and holds of
/// every rank up to it what the run holds of that rank.
proof fn lemma_sorted_up_to_stable(run: Seq<CommandInfo>, rank: int, of: int)
    requires
        -129 <= rank,
    ensures
        forall|i: int|
            0 <= i < sorted_up_to(run, rank).len() ==> (#[trigger] sorted_up_to(
                run,
                rank,
            )[i]).order <= rank,
        forall|i: int, j: int|
            0 <= i < j < sorted_up_to(run, rank).len() ==> sorted_up_to(run, rank)[i].order
                <= sorted_up_to(run, rank)[j].order,
        of_rank(sorted_up_to(run, rank), of) == if -128 <= of <= rank {
            of_rank(run, of)
        } else {
            Seq::empty()
        },
    decreases rank + 129,
{
    if rank < -128 {
        lemma_rank_bounds(sorted_up_to(run, rank), of);
    } else {
        let lower = sorted_up_to(run, rank - 1);
        let these = of_rank(run, rank);
        lemma_sorted_up_to_stable(run, rank - 1, of);
        assert forall|i: int| 0 <= i < these.len() implies (#[trigger] these[i]).order == rank by {
            run.lemma_filter_pred(|e: CommandInfo| e.order == rank, i);
        }
        lemma_rank_bounds(these, of);
        Seq::filter_distributes_over_add(lower, these, |e: CommandInfo| e.order == of);
        let all = sorted_up_to(run, rank);
        assert forall|i: int| 0 <= i < all.len() implies (#[trigger] all[i]).order <= rank by {
            if i < lower.len() {
                assert(all[i] == lower[i]);
            } else {
                assert(all[i] == these[i - lower.len()]);
            }
        }
        assert forall|i: int, j: int| 0 <= i < j < all.len() implies all[i].order
            <= all[j].order by {
            if j < lower.len() {
                assert(all[i] == lower[i] && all[j] == lower[j]);
            } else {
                assert(all[j] == these[j - lower.len()]);
                if i < lower.len() {
                    assert(all[i] == lower[i]);
                } else {
                    assert(all[i] == these[i - lower.len()]);
                }
            }
        }
    }
}

/// Every run has a stable sort by rank: the entries of the lowest rank in
/// the order they have, then those of the next rank, and so on.
pub proof fn lemma_sorted_by_rank_is_stable(run: Seq<CommandInfo>)
    ensures
        sorted_stably(run, sorted_by_rank(run)),
{
    lemma_sorted_up_to_stable(run, 127, 0);
    assert forall|rank: int| #[trigger]
        of_rank(sorted_by_rank(run), rank) == of_rank(run, rank) by {
        lemma_sorted_up_to_stable(run, 127, rank);
        lemma_rank_bounds(run, rank);
    }
}

/// Every list is cut into its runs by `groups`.
pub proof fn lemma_groups_are_runs(cmds: Seq<CommandInfo>)
    ensures
        grouped(cmds, groups(cmds)),
    decreases cmds.len(),
{
    if cmds.len() > 0 {
        let front = cmds.drop_last();
        let last = cmds.last();
        let before = groups(front);
        let runs = groups(cmds);
        lemma_groups_are_runs(front);
        assert(cmds =~= front.push(last));
        if before.len() > 0 {
            let inner = before.drop_last();
            assert(before =~= inner.push(before.last()));
            inner.lemma_flatten_push(before.last());
            assert(before.last().len() > 0);
            assert(front.last() == before.last().last());
        }
        if cmds.len() >= 2 {
            assert(front.len() > 0);
            assert(before.len() > 0);
            assert(cmds[cmds.len() - 2] == front.last());
        }
        if cmds.len() >= 2 && cmds[cmds.len() - 2].text.group@ == last.text.group@ {
            let inner = before.drop_last();
            let longer = before.last().push(last);
            inner.lemma_flatten_push(longer);
            assert(runs.flatten() =~= cmds);
            assert forall|r: int| 0 <= r < runs.len() implies (#[trigger] runs[r]).len() > 0 by {
                if r < inner.len() {
                    assert(runs[r] == before[r]);
                }
            }
            assert forall|r: int, i: int|
                0 <= r < runs.len() && 0 <= i < runs[r].len() implies (#[trigger] runs[r][i]).text.group@
                == runs[r][0].text.group@ by {
                if r < inner.len() {
                    assert(runs[r] == before[r]);
                    assert(before[r][i].text.group@ == before[r][0].text.group@);
                } else {
                    let end = before[before.len() - 1];
                    assert(runs[r][0] == end[0]);
                    assert(end[end.len() - 1].text.group@ == end[0].text.group@);
                    if i < end.len() {
                        assert(runs[r][i] == end[i]);
                        assert(end[i].text.group@ == end[0].text.group@);
                    }
                }
            }
            assert forall|r: int| 0 < r < runs.len() implies (#[trigger] runs[r])[0].text.group@
                != runs[r - 1].last().text.group@ by {
                assert(runs[r - 1] == before[r - 1]);
                assert(runs[r][0] == before[r][0]);
            }
            assert(grouped(cmds, runs));
        } else {
            before.lemma_flatten_push(seq![last]);
            assert(runs.flatten() =~= cmds);
            assert forall|r: int| 0 <= r < runs.len() implies (#[trigger] runs[r]).len() > 0 by {
                if r < before.len() {
                    assert(runs[r] == before[r]);
                }
            }
            assert forall|r: int, i: int|
                0 <= r < runs.len() && 0 <= i < runs[r].len() implies (#[trigger] runs[r][i]).text.group@
                == runs[r][0].text.group@ by {
                if r < before.len() {
                    assert(runs[r] == before[r]);
                    assert(before[r][i].text.group@ == before[r][0].text.group@);
                }
            }
            assert forall|r: int| 0 < r < runs.len() implies (#[trigger] runs[r])[0].text.group@
                != runs[r - 1].last().text.group@ by {
                assert(runs[r - 1] == before[r - 1]);
                if r < before.len() {
                    assert(runs[r] == before[r]);
                }
            }
            assert(grouped(cmds, runs));
        }
    } else {
        assert(cmds =~= Seq::<CommandInfo>::empty());
        assert(groups(cmds) =~= Seq::<Seq<CommandInfo>>::empty());
    }
}

/// The last run of a list ends with the last entry of the list.
proof fn lemma_last_of_groups(cmds: Seq<CommandInfo>)
    requires
        cmds.len() > 0,
    ensures
        groups(cmds).len() > 0,
        groups(cmds).last().len() > 0,
        groups(cmds).last().last() == cmds.last(),
{
    let runs = groups(cmds);
    lemma_groups_are_runs(cmds);
    if runs.len() > 0 {
        let inner = runs.drop_last();
        assert(runs =~= inner.push(runs.last()));
        inner.lemma_flatten_push(runs.last());
        assert(runs.last().len() > 0);
    }
}

/// Whether a run ascends by rank.
pub open spec fn ranks_ascend(run: Seq<CommandInfo>) -> bool {
    forall|i: int, j: int| 0 <= i < j < run.len() ==> run[i].order <= run[j].order
}

/// Whether neighbours of one group stand by rank in the list.
pub open spec fn ranked_in_groups(cmds: Seq<CommandInfo>) -> bool {
    forall|i: int|
        0 < i < cmds.len() && cmds[i - 1].text.group@ == (#[trigger] cmds[i]).text.group@
            ==> cmds[i - 1].order <= cmds[i].order
}

/// In a list whose neighbours of one group stand by rank, every run
/// ascends by rank.
proof fn lemma_runs_ascend(cmds: Seq<CommandInfo>)
    requires
        ranked_in_groups(cmds),
    ensures
        forall|r: int| 0 <= r < groups(cmds).len() ==> ranks_ascend(#[trigger] groups(cmds)[r]),
    decreases cmds.len(),
{
    if cmds.len() > 0 {
        let front = cmds.drop_last();
        let last = cmds.last();
        let before = groups(front);
        let runs = groups(cmds);
        assert forall|i: int|
            0 < i < front.len() && front[i - 1].text.group@ == (
            #[trigger] front[i]).text.group@ implies front[i - 1].order <= front[i].order by {
            assert(front[i - 1] == cmds[i - 1] && front[i] == cmds[i]);
        }
        lemma_runs_ascend(front);
        if cmds.len() >= 2 && cmds[cmds.len() - 2].text.group@ == last.text.group@ {
            lemma_last_of_groups(front);
            let end = before.last();
            assert(ranks_ascend(before[before.len() - 1]));
            assert(end.last() == cmds[cmds.len() - 2]);
            assert(cmds[cmds.len() - 2].order <= cmds[cmds.len() - 1].order);
            assert forall|r: int| 0 <= r < runs.len() implies ranks_ascend(#[trigger] runs[r]) by {
                if r < runs.len() - 1 {
                    assert(runs[r] == before[r]);
                } else {
                    let run = runs[r];
                    assert(run == end.push(last));
                    assert forall|i: int, j: int| 0 <= i < j < run.len() implies run[i].order
                        <= run[j].order by {
                        assert(run[i] == end[i]);
                        if j < end.len() {
                            assert(run[j] == end[j]);
                        } else {
                            assert(end[i].order <= end[end.len() - 1].order);
                        }
                    }
                }
            }
        } else {
            assert forall|r: int| 0 <= r < runs.len() implies ranks_ascend(#[trigger] runs[r]) by {
                if r < before.len() {
                    assert(runs[r] == before[r]);
                }
            }
        }
    }
}

/// A run that ascends by rank is its own stable sort.
pub proof fn lemma_ascending_run_is_sorted(run: Seq<CommandInfo>)
    requires
        ranks_ascend(run),
    ensures
        sorted_by_rank(run) == run,
{
    lemma_sorted_by_rank(run, run);
}

/// In a list whose neighbours of one group stand by rank, as in every
/// aggregated list, the commands are shown in the order of the list: the
/// cursor counts the entries of the list.
pub proof fn lemma_shown_in_list_order(cmds: Seq<CommandInfo>)
    requires
        ranked_in_groups(cmds),
    ensures
        forall|r: int|
            0 <= r < groups(cmds).len() ==> sorted_by_rank(#[trigger] groups(cmds)[r]) == groups(
                cmds,
            )[r],
        groups(cmds).flatten() == cmds,
{
    lemma_runs_ascend(cmds);
    lemma_groups_are_runs(cmds);
    assert forall|r: int| 0 <= r < groups(cmds).len() implies sorted_by_rank(
        #[trigger] groups(cmds)[r],
    ) == groups(cmds)[r] by {
        lemma_ascending_run_is_sorted(groups(cmds)[r]);
    }
}

/// There is one way to cut a list into its runs.
pub proof fn lemma_grouped_is_groups(cmds: Seq<CommandInfo>, runs: Seq<Seq<CommandInfo>>)
    requires
        grouped(cmds, runs),
    ensures
        runs == groups(cmds),
    decreases cmds.len(),
{
    if runs.len() == 0 {
        assert(runs =~= groups(cmds));
    } else {
        let rest = runs.drop_last();
        let last = runs.last();
        assert(runs =~= rest.push(last));
        rest.lemma_flatten_push(last);
        assert(last.len() > 0);
        assert(cmds.last() == last.last());
        assert(cmds.drop_last() =~= rest.flatten() + last.drop_last());
        if rest.len() > 0 {
            let inner = rest.drop_last();
            assert(rest =~= inner.push(rest.last()));
            inner.lemma_flatten_push(rest.last());
            assert(rest.last() == runs[runs.len() - 2]);
            assert(rest.last().len() > 0);
            assert(rest.flatten().len() > 0);
            assert(rest.flatten().last() == rest.last().last());
        }
        if last.len() >= 2 {
            let shorter = rest.push(last.drop_last());
            rest.lemma_flatten_push(last.drop_last());
            assert forall|r: int, i: int|
                0 <= r < shorter.len() && 0 <= i < shorter[r].len() implies (#[trigger] shorter[r][i]).text.group@
                == shorter[r][0].text.group@ by {
                assert(shorter[r][i] == runs[r][i]);
                assert(shorter[r][0] == runs[r][0]);
            }
            assert forall|r: int| 0 < r < shorter.len() implies (#[trigger] shorter[r])[0].text.group@
                != shorter[r - 1].last().text.group@ by {
                assert(shorter[r][0] == runs[r][0]);
                assert(shorter[r - 1] == runs[r - 1]);
            }
            assert forall|r: int| 0 <= r < shorter.len() implies (#[trigger] shorter[r]).len()
                > 0 by {
                if r < rest.len() {
                    assert(shorter[r] == runs[r]);
                }
            }
            assert(grouped(cmds.drop_last(), shorter));
            lemma_grouped_is_groups(cmds.drop_last(), shorter);
            assert(cmds[cmds.len() - 2] == last[last.len() - 2]);
            assert(runs[runs.len() - 1][last.len() - 2].text.group@ == last[0].text.group@);
            assert(runs[runs.len() - 1][last.len() - 1].text.group@ == last[0].text.group@);
            assert(shorter.drop_last() =~= rest);
            assert(shorter.last().push(cmds.last()) =~= last);
        } else {
            assert(last.drop_last() =~= Seq::<CommandInfo>::empty());
            assert forall|r: int, i: int|
                0 <= r < rest.len() && 0 <= i < rest[r].len() implies (#[trigger] rest[r][i]).text.group@
                == rest[r][0].text.group@ by {
                assert(rest[r][i] == runs[r][i]);
                assert(rest[r][0] == runs[r][0]);
            }
            assert forall|r: int| 0 < r < rest.len() implies (#[trigger] rest[r])[0].text.group@
                != rest[r - 1].last().text.group@ by {
                assert(rest[r] == runs[r]);
                assert(rest[r - 1] == runs[r - 1]);
            }
            assert forall|r: int| 0 <= r < rest.len() implies (#[trigger] rest[r]).len() > 0 by {
                assert(rest[r] == runs[r]);
            }
            assert(grouped(cmds.drop_last(), rest));
            lemma_grouped_is_groups(cmds.drop_last(), rest);
            assert(last =~= seq![cmds.last()]);
            if cmds.len() >= 2 {
                assert(rest.len() > 0);
                assert(cmds[cmds.len() - 2] == rest.flatten().last());
                assert(runs[runs.len() - 1][0].text.group@ != runs[runs.len() - 2].last().text.group@);
            }
        }
    }
}

/// The number of entries of a run that have a rank up to `rank`, counted
/// rank by rank.
proof fn lemma_sorted_up_to_len(run: Seq<CommandInfo>, rank: int)
    requires
        -129 <= rank,
    ensures
        sorted_up_to(run, rank).len() == up_to_rank(run, rank).len(),
    decreases rank + 129,
{
    if rank < -128 {
        lemma_rank_bounds(run, rank);
    } else {
        lemma_sorted_up_to_len(run, rank - 1);
        lemma_up_to_rank_len(run, rank);
    }
}

/// As many entries have a rank up to `rank` as have a lower rank or that
/// rank.
proof fn lemma_up_to_rank_len(run: Seq<CommandInfo>, rank: int)
    ensures
        up_to_rank(run, rank).len() == up_to_rank(run, rank - 1).len() + of_rank(run, rank).len(),
    decreases run.len(),
{
    if run.len() == 0 {
        reveal(Seq::filter);
    } else {
        assert(run =~= run.drop_last().push(run.last()));
        lemma_up_to_rank_len(run.drop_last(), rank);
        lemma_rank_push(run.drop_last(), run.last(), rank);
        lemma_rank_push(run.drop_last(), run.last(), rank - 1);
    }
}

/// Sorting a run by rank keeps the number of its entries.
pub proof fn lemma_sorted_by_rank_len(run: Seq<CommandInfo>)
    ensures
        sorted_by_rank(run).len() == run.len(),
{
    lemma_sorted_up_to_len(run, 127);
    lemma_rank_bounds(run, 127);
}

/// The header of a group: its name on a line of its own.
pub open spec fn header(group: Seq<char>) -> Span {
    Span { content: group.push('\n'), style: TextStyle::Header }
}

/// The text of a command: a marker, `>` where the command is selected and a
/// blank where it is not, and the label, on a line of their own; below the
/// selected command its description, indented by two blanks.
pub open spec fn entry(e: CommandInfo, selected: bool) -> Span {
    Span {
        content: if selected {
            seq!['>'] + e.text.name@ + seq!['\n', ' ', ' '] + e.text.desc@ + seq!['\n']
        } else {
            seq![' '] + e.text.name@ + seq!['\n']
        },
        style: TextStyle::Entry { selected },
    }
}

/// The texts of the commands of a sorted run. `first` is the place that the
/// first of them has among all commands shown; the command whose place is
/// `cursor` is the selected one.
pub open spec fn entries(run: Seq<CommandInfo>, first: int, cursor: int) -> Seq<Span> {
    Seq::new(run.len(), |i: int| entry(run[i], first + i == cursor))
}

/// The texts of one group: its header, then its commands by rank.
pub open spec fn block(run: Seq<CommandInfo>, first: int, cursor: int) -> Seq<Span> {
    seq![header(run[0].text.group@)] + entries(sorted_by_rank(run), first, cursor)
}

/// The texts of the groups, one block after the other. Commands are counted
/// through all the groups; headers are not counted.
pub open spec fn blocks(runs: Seq<Seq<CommandInfo>>, cursor: int) -> Seq<Span>
    decreases runs.len(),
{
    if runs.len() == 0 {
        Seq::empty()
    } else {
        blocks(runs.drop_last(), cursor) + block(
            runs.last(),
            runs.drop_last().flatten().len() as int,
            cursor,
        )
    }
}

/// The text of the help overlay for a list of commands and a cursor.
pub open spec fn layout(cmds: Seq<CommandInfo>, cursor: int) -> Seq<Span> {
    blocks(groups(cmds), cursor)
}

/// An empty list has no text: no header and no command.
pub proof fn lemma_layout_of_empty(cursor: int)
    ensures
        layout(Seq::empty(), cursor) == Seq::<Span>::empty(),
{
}

/// The header of a group.
pub fn header_text(group: &str) -> (text: StyledText)
    ensures
        text@ == header(group@),
{
    let mut content = String::from_str(group);
    content.append("\n");
    proof {
        reveal_strlit("\n");
        assert(content@ =~= group@.push('\n'));
    }
    StyledText { content, style: TextStyle::Header }
}

/// The text of a command, selected or not.
pub fn entry_text(e: &CommandInfo, selected: bool) -> (text: StyledText)
    ensures
        text@ == entry(*e, selected),
{
    let mut out = String::from_str(if selected { ">" } else { " " });
    e.print(&mut out);
    out.append("\n");
    if selected {
        out.append("  ");
        out.append(e.text.desc);
        out.append("\n");
    }
    proof {
        reveal_strlit(">");
        reveal_strlit(" ");
        reveal_strlit("\n");
        reveal_strlit("  ");
        assert(out@ =~= entry(*e, selected).content);
    }
    StyledText { content: out, style: TextStyle::Entry { selected } }
}

/// The text of the help overlay: for every group of the list a header and
/// its commands by rank, the command at the place `selection` marked and
/// followed by its description.
pub fn help_text(cmds: &Vec<CommandInfo>, selection: u16) -> (txt: Vec<StyledText>)
    ensures
        spans(txt@) == layout(cmds@, selection as int),
        txt@.len() == layout(cmds@, selection as int).len(),
{
    let mut txt: Vec<StyledText> = Vec::new();
    let mut processed: usize = 0;
    let runs = group_by_group(cmds);
    let ghost rv = run_views(runs@);
    proof {
        lemma_grouped_is_groups(cmds@, rv);
        assert(rv.take(0) =~= Seq::<Seq<CommandInfo>>::empty());
        assert(spans(txt@) =~= blocks(rv.take(0), selection as int));
    }
    let mut r: usize = 0;
    while r < runs.len()
        invariant
            r <= runs.len(),
            rv == run_views(runs@),
            forall|k: int| 0 <= k < rv.len() ==> (#[trigger] rv[k]).len() > 0,
            spans(txt@) == blocks(rv.take(r as int), selection as int),
            processed == rv.take(r as int).flatten().len(),
            processed <= txt.len(),
        decreases runs.len() - r,
    {
        let run = &runs[r];
        let ghost done = txt@;
        let ghost first = processed as int;
        assert(run@ == rv[r as int]);
        txt.push(header_text(run[0].text.group));
        let sorted = sorted_by_order(run);
        proof {
            lemma_sorted_by_rank(run@, sorted@);
            lemma_sorted_by_rank_len(run@);
            assert(spans(txt@) =~= spans(done) + seq![header(run@[0].text.group@)] + entries(
                sorted@,
                first,
                selection as int,
            ).take(0));
        }
        let mut i: usize = 0;
        while i < sorted.len()
            invariant
                i <= sorted.len(),
                spans(txt@) == spans(done) + seq![header(run@[0].text.group@)] + entries(
                    sorted@,
                    first,
                    selection as int,
                ).take(i as int),
                processed == first + i,
                processed < txt.len(),
            decreases sorted.len() - i,
        {
            let is_selected = selection as usize == processed;
            let ghost before = txt@;
            txt.push(entry_text(&sorted[i], is_selected));
            processed += 1;
            proof {
                let all = entries(sorted@, first, selection as int);
                assert(all.take(i + 1) =~= all.take(i as int).push(all[i as int]));
                assert(spans(txt@) =~= spans(before).push(all[i as int]));
            }
            i += 1;
        }
        proof {
            let all = entries(sorted@, first, selection as int);
            assert(all.take(sorted.len() as int) =~= all);
            let upto = rv.take(r + 1);
            assert(upto.drop_last() =~= rv.take(r as int));
            assert(upto.last() == run@);
            assert(upto =~= rv.take(r as int).push(run@));
            rv.take(r as int).lemma_flatten_push(run@);
            assert(spans(txt@) =~= blocks(upto, selection as int));
        }
        r += 1;
    }
    proof {
        assert(rv.take(runs.len() as int) =~= rv);
        assert(spans(txt@).len() == txt@.len());
    }
    txt
}

} // verus!
