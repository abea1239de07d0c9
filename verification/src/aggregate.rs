//! The command aggregator: from the batch of commands that the components
//! report to the list that the help overlay shows.
//!
//! The batch is processed in steps: the commands hidden from help are
//! dropped; the rest is sorted by command text and of each command only the
//! first report is kept; the list is sorted by rank; and it is sorted by the
//! hash of the group, so that the commands of a group stand together, by
//! rank, and the groups in an order that does not depend on the order of the
//! batch. Every sort keeps what it does not tell apart in the order it had.

use crate::components::command::CommandInfo;
use crate::components::command::lemma_precedes_strict;
use crate::components::command::lemma_precedes_transitive;
use crate::components::command::same_text;
use crate::components::command::text_precedes;
use crate::components::command::CommandText;
use crate::hash::hash;
use crate::hash::spec_hash;
use crate::layout::ranked_in_groups;
use vstd::prelude::*;

verus! {

/// The order of the aggregated list: by the hash of the group, then by
/// rank, then by command text.
pub open spec fn entry_lt(a: CommandInfo, b: CommandInfo) -> bool {
    let (ha, hb) = (spec_hash(a.text.group@), spec_hash(b.text.group@));
    if ha != hb {
        ha < hb
    } else if a.order != b.order {
        a.order < b.order
    } else {
        a.text.precedes(b.text)
    }
}

/// Whether `batch[k]` is shown in help and is the first report of its
/// command in the batch.
pub open spec fn first_report(batch: Seq<CommandInfo>, k: int) -> bool {
    &&& 0 <= k < batch.len()
    &&& !batch[k].text.hide_help
    &&& forall|j: int| 0 <= j < k ==> !(#[trigger] batch[j]).text.same(batch[k].text)
}

/// Whether `entry` is the first report of its command in the batch, and is
/// shown in help.
pub open spec fn reported_first(batch: Seq<CommandInfo>, entry: CommandInfo) -> bool {
    exists|k: int| #[trigger] first_report(batch, k) && batch[k] == entry
}

/// Whether `list` has an entry for the command that `text` describes.
pub open spec fn has_entry(list: Seq<CommandInfo>, text: CommandText) -> bool {
    exists|i: int| 0 <= i < list.len() && (#[trigger] list[i]).text.same(text)
}

/// Whether `list` is the aggregated list of `batch`: it is strictly
/// ascending in the order of the aggregated list, each of its entries is the
/// first report of a command shown in help, and every command of the batch
/// that is shown in help has an entry.
pub open spec fn aggregated(batch: Seq<CommandInfo>, list: Seq<CommandInfo>) -> bool {
    &&& forall|i: int, j: int| 0 <= i < j < list.len() ==> entry_lt(list[i], list[j])
    &&& forall|i: int| 0 <= i < list.len() ==> #[trigger] reported_first(batch, list[i])
    &&& forall|k: int|
        0 <= k < batch.len() && !batch[k].text.hide_help ==> #[trigger] has_entry(
            list,
            batch[k].text,
        )
}

/// Whether `output` picks entries of `input`: `output[i]` is
/// `input[from[i]]`.
pub open spec fn picks(input: Seq<CommandInfo>, output: Seq<CommandInfo>, from: Seq<int>) -> bool {
    &&& from.len() == output.len()
    &&& forall|i: int|
        0 <= i < output.len() ==> 0 <= #[trigger] from[i] < input.len() && output[i]
            == input[from[i]]
}

/// Whether every index of `input` below `n` is picked.
pub open spec fn picks_all(from: Seq<int>, n: int) -> bool {
    forall|m: int| 0 <= m < n ==> #[trigger] from.contains(m)
}

/// Whether `output` holds the entries of `input` that are shown in help, in
/// the order of `input`.
pub open spec fn shown_of(input: Seq<CommandInfo>, output: Seq<CommandInfo>, from: Seq<int>) -> bool {
    &&& picks(input, output, from)
    &&& forall|i: int, j: int| 0 <= i < j < from.len() ==> from[i] < from[j]
    &&& forall|i: int| 0 <= i < output.len() ==> !(#[trigger] output[i]).text.hide_help
    &&& forall|m: int|
        0 <= m < input.len() && !input[m].text.hide_help ==> #[trigger] from.contains(m)
}

/// Drops the commands that are hidden from help. The ghost result tells
/// where in `batch` each entry of the result stood.
pub fn shown_only(batch: &Vec<CommandInfo>) -> (res: (Vec<CommandInfo>, Ghost<Seq<int>>))
    ensures
        shown_of(batch@, res.0@, res.1@),
{
    let mut out: Vec<CommandInfo> = Vec::new();
    let ghost mut from: Seq<int> = Seq::empty();
    let mut k: usize = 0;
    while k < batch.len()
        invariant
            k <= batch.len(),
            picks(batch@, out@, from),
            forall|i: int| 0 <= i < from.len() ==> #[trigger] from[i] < k,
            forall|i: int, j: int| 0 <= i < j < from.len() ==> from[i] < from[j],
            forall|i: int| 0 <= i < out.len() ==> !(#[trigger] out[i]).text.hide_help,
            forall|m: int| 0 <= m < k && !batch[m].text.hide_help ==> #[trigger] from.contains(m),
        decreases batch.len() - k,
    {
        let e = batch[k];
        if !e.text.hide_help {
            let ghost old_from = from;
            out.push(e);
            proof {
                from = from.push(k as int);
                assert forall|m: int| 0 <= m <= k && !batch[m].text.hide_help implies #[trigger]
                    from.contains(m) by {
                    if m < k {
                        assert(old_from.contains(m));
                        let i = choose|i: int| 0 <= i < old_from.len() && old_from[i] == m;
                        assert(from[i] == m);
                    } else {
                        assert(from[from.len() - 1] == m);
                    }
                }
            }
        }
        k += 1;
    }
    (out, Ghost(from))
}

/// What a list is sorted by.
#[derive(Clone, Copy, Debug)]
pub enum SortKey {
    /// By command text.
    Text,
    /// By rank.
    Rank,
    /// By the hash of the group.
    GroupHash,
}

/// Whether `a` may stand before `b` in a list sorted by `key`.
pub open spec fn key_le(key: SortKey, a: CommandInfo, b: CommandInfo) -> bool {
    match key {
        SortKey::Text => !b.text.precedes(a.text),
        SortKey::Rank => a.order <= b.order,
        SortKey::GroupHash => spec_hash(a.text.group@) <= spec_hash(b.text.group@),
    }
}

/// Either of two entries may stand before the other, or both may; and what
/// may stand before an entry may stand before all that the entry may stand
/// before.
pub proof fn lemma_key_le_total_preorder(key: SortKey, a: CommandInfo, b: CommandInfo, c: CommandInfo)
    ensures
        key_le(key, a, b) || key_le(key, b, a),
        key_le(key, a, b) && key_le(key, b, c) ==> key_le(key, a, c),
{
    lemma_precedes_strict(a.text, b.text);
    lemma_precedes_transitive(c.text, a.text, b.text);
}

/// Whether `output` is `input` sorted by `key`, entries that are equal
/// under the key staying in the order of `input`.
pub open spec fn stably_sorted(
    key: SortKey,
    input: Seq<CommandInfo>,
    output: Seq<CommandInfo>,
    from: Seq<int>,
) -> bool {
    &&& output.len() == input.len()
    &&& picks(input, output, from)
    &&& picks_all(from, input.len() as int)
    &&& ordered(key, output, from)
}

/// Whether `list` ascends by `key`, and by `from` where the key is equal.
pub open spec fn ordered(key: SortKey, list: Seq<CommandInfo>, from: Seq<int>) -> bool {
    forall|i: int, j: int|
        #![trigger list[i], list[j]]
        0 <= i < j < list.len() ==> key_le(key, list[i], list[j]) && (key_le(key, list[j], list[i])
            ==> from[i] < from[j])
}

/// Whether `a` may stand before `b` in a list sorted by `key`.
pub fn less_eq(key: SortKey, a: &CommandInfo, b: &CommandInfo) -> (le: bool)
    ensures
        le == key_le(key, *a, *b),
{
    match key {
        SortKey::Text => !text_precedes(&b.text, &a.text),
        SortKey::Rank => a.order <= b.order,
        SortKey::GroupHash => hash(a.text.group) <= hash(b.text.group),
    }
}

/// Sorts by `key`, keeping entries that are equal under the key in the order
/// they came in. The ghost result tells where in `input` each entry of the
/// result stood.
pub fn sort_by(input: &Vec<CommandInfo>, key: SortKey) -> (res: (Vec<CommandInfo>, Ghost<Seq<int>>))
    ensures
        stably_sorted(key, input@, res.0@, res.1@),
{
    let mut out: Vec<CommandInfo> = Vec::new();
    let ghost mut from: Seq<int> = Seq::empty();
    let mut n: usize = 0;
    while n < input.len()
        invariant
            n <= input.len(),
            out.len() == n,
            picks(input@, out@, from),
            forall|i: int| 0 <= i < from.len() ==> #[trigger] from[i] < n,
            picks_all(from, n as int),
            ordered(key, out@, from),
        decreases input.len() - n,
    {
        let x = input[n];
        let mut pos: usize = out.len();
        while pos > 0 && !less_eq(key, &out[pos - 1], &x)
            invariant
                pos <= out.len(),
                forall|t: int| pos <= t < out.len() ==> !key_le(key, #[trigger] out[t], x),
            decreases pos,
        {
            pos -= 1;
        }
        let ghost old_out = out@;
        let ghost old_from = from;
        out.insert(pos, x);
        proof {
            from = old_from.insert(pos as int, n as int);
            old_out.insert_ensures(pos as int, x);
            old_from.insert_ensures(pos as int, n as int);
            lemma_insert_keeps_order(key, old_out, old_from, pos as int, x, n as int);
            assert forall|m: int| 0 <= m < n + 1 implies #[trigger] from.contains(m) by {
                if m < n {
                    assert(old_from.contains(m));
                    let i = choose|i: int| 0 <= i < old_from.len() && old_from[i] == m;
                    if i < pos {
                        assert(from[i] == m);
                    } else {
                        assert(from[i + 1] == m);
                    }
                } else {
                    assert(from[pos as int] == m);
                }
            }
            assert forall|i: int| 0 <= i < out.len() implies 0 <= #[trigger] from[i] < input.len()
                && out[i] == input[from[i]] && from[i] < n + 1 by {
                if i > pos {
                    assert(from[i] == old_from[i - 1]);
                    assert(out[i] == old_out[i - 1]);
                }
            }
        }
        n += 1;
    }
    (out, Ghost(from))
}

/// An ordered list stays ordered when a new entry, which came in after all
/// of the list, is put behind the last entry that may stand before it.
proof fn lemma_insert_keeps_order(
    key: SortKey,
    list: Seq<CommandInfo>,
    from: Seq<int>,
    pos: int,
    x: CommandInfo,
    n: int,
)
    requires
        from.len() == list.len(),
        0 <= pos <= list.len(),
        ordered(key, list, from),
        forall|i: int| 0 <= i < from.len() ==> #[trigger] from[i] < n,
        forall|t: int| pos <= t < list.len() ==> !key_le(key, #[trigger] list[t], x),
        pos > 0 ==> key_le(key, list[pos - 1], x),
    ensures
        ordered(key, list.insert(pos, x), from.insert(pos, n)),
{
    let new_list = list.insert(pos, x);
    let new_from = from.insert(pos, n);
    list.insert_ensures(pos, x);
    from.insert_ensures(pos, n);
    assert forall|i: int, j: int|
        #![trigger new_list[i], new_list[j]]
        0 <= i < j < new_list.len() implies key_le(key, new_list[i], new_list[j]) && (key_le(
        key,
        new_list[j],
        new_list[i],
    ) ==> new_from[i] < new_from[j]) by {
        let oi = if i < pos { i } else { i - 1 };
        let oj = if j < pos { j } else { j - 1 };
        if i != pos {
            assert(new_list[i] == list[oi] && new_from[i] == from[oi]);
        }
        if j != pos {
            assert(new_list[j] == list[oj] && new_from[j] == from[oj]);
        }
        if i == pos {
            assert(!key_le(key, list[oj], x));
            lemma_key_le_total_preorder(key, x, list[oj], x);
        } else if j == pos {
            assert(from[oi] < n);
            if oi < pos - 1 {
                assert(key_le(key, list[oi], list[pos - 1]));
                lemma_key_le_total_preorder(key, list[oi], list[pos - 1], x);
            }
        } else {
            assert(key_le(key, list[oi], list[oj]));
        }
    }
}

/// Whether `list[m]` begins a run of reports of one command: it is the
/// first entry, or the entry before it is of another command.
pub open spec fn begins_run(list: Seq<CommandInfo>, m: int) -> bool {
    m == 0 || !list[m - 1].text.same(list[m].text)
}

/// Whether `output` is `input` without repeated reports: of every run of
/// reports of one command the first is kept, and nothing else.
pub open spec fn deduped(input: Seq<CommandInfo>, output: Seq<CommandInfo>, from: Seq<int>) -> bool {
    &&& picks(input, output, from)
    &&& forall|i: int, j: int| 0 <= i < j < from.len() ==> from[i] < from[j]
    &&& forall|m: int| 0 <= m < input.len() ==> (#[trigger] from.contains(m) <==> begins_run(input, m))
    &&& forall|m: int| 0 <= m < input.len() ==> #[trigger] has_entry(output, input[m].text)
}

/// Removes every report that follows a report of the same command. The
/// ghost result tells where in `input` each entry of the result stood.
pub fn dedup_by_text(input: &Vec<CommandInfo>) -> (res: (Vec<CommandInfo>, Ghost<Seq<int>>))
    ensures
        deduped(input@, res.0@, res.1@),
{
    let mut out: Vec<CommandInfo> = Vec::new();
    let ghost mut from: Seq<int> = Seq::empty();
    let mut m: usize = 0;
    while m < input.len()
        invariant
            m <= input.len(),
            picks(input@, out@, from),
            forall|i: int| 0 <= i < from.len() ==> #[trigger] from[i] < m,
            forall|i: int, j: int| 0 <= i < j < from.len() ==> from[i] < from[j],
            forall|t: int| 0 <= t < m ==> (#[trigger] from.contains(t) <==> begins_run(input@, t)),
            forall|t: int| 0 <= t < m ==> #[trigger] has_entry(out@, input[t].text),
            m > 0 ==> out.len() > 0 && out[out.len() - 1].text.same(input[m - 1].text),
        decreases input.len() - m,
    {
        let e = input[m];
        let keep = m == 0 || !same_text(&input[m - 1].text, &e.text);
        let ghost old_out = out@;
        let ghost old_from = from;
        if keep {
            out.push(e);
            proof {
                from = from.push(m as int);
                assert(from[from.len() - 1] == m);
            }
        }
        proof {
            assert(out[out.len() - 1].text.same(e.text));
            assert forall|t: int| 0 <= t < m + 1 implies (#[trigger] from.contains(t)
                <==> begins_run(input@, t)) by {
                if t < m {
                    if old_from.contains(t) {
                        let i = choose|i: int| 0 <= i < old_from.len() && old_from[i] == t;
                        assert(from[i] == t);
                    }
                }
                if from.contains(t) {
                    let i = choose|i: int| 0 <= i < from.len() && from[i] == t;
                    if i < old_from.len() {
                        assert(old_from[i] == t);
                    }
                }
            }
            assert forall|t: int| 0 <= t < m + 1 implies #[trigger] has_entry(
                out@,
                input[t].text,
            ) by {
                if t < m {
                    assert(has_entry(old_out, input[t].text));
                    let i = choose|i: int|
                        0 <= i < old_out.len() && (#[trigger] old_out[i]).text.same(input[t].text);
                    assert(out[i].text.same(input[t].text));
                }
            }
        }
        m += 1;
    }
    (out, Ghost(from))
}

/// Without repeated reports a list sorted by command text ascends strictly.
proof fn lemma_deduped_ascends(
    sorted: Seq<CommandInfo>,
    from_shown: Seq<int>,
    unique: Seq<CommandInfo>,
    from_sorted: Seq<int>,
    a: int,
    b: int,
)
    requires
        ordered(SortKey::Text, sorted, from_shown),
        deduped(sorted, unique, from_sorted),
        0 <= a < b < unique.len(),
    ensures
        unique[a].text.precedes(unique[b].text),
{
    let (x, y) = (from_sorted[a], from_sorted[b]);
    assert(from_sorted.contains(y));
    assert(begins_run(sorted, y));
    assert(key_le(SortKey::Text, sorted[y - 1], sorted[y]));
    lemma_precedes_strict(sorted[y - 1].text, sorted[y].text);
    if x < y - 1 {
        assert(key_le(SortKey::Text, sorted[x], sorted[y - 1]));
        lemma_precedes_strict(sorted[x].text, sorted[y - 1].text);
        lemma_precedes_transitive(sorted[x].text, sorted[y - 1].text, sorted[y].text);
    }
}

/// The steps together yield the aggregated list of the batch.
proof fn lemma_steps_aggregate(
    batch: Seq<CommandInfo>,
    shown: Seq<CommandInfo>,
    from_batch: Seq<int>,
    sorted: Seq<CommandInfo>,
    from_shown: Seq<int>,
    unique: Seq<CommandInfo>,
    from_sorted: Seq<int>,
    ranked: Seq<CommandInfo>,
    from_unique: Seq<int>,
    list: Seq<CommandInfo>,
    from_ranked: Seq<int>,
)
    requires
        shown_of(batch, shown, from_batch),
        stably_sorted(SortKey::Text, shown, sorted, from_shown),
        deduped(sorted, unique, from_sorted),
        stably_sorted(SortKey::Rank, unique, ranked, from_unique),
        stably_sorted(SortKey::GroupHash, ranked, list, from_ranked),
    ensures
        aggregated(batch, list),
{
    assert forall|i: int, j: int| 0 <= i < j < list.len() implies entry_lt(list[i], list[j]) by {
        assert(key_le(SortKey::GroupHash, list[i], list[j]));
        if key_le(SortKey::GroupHash, list[j], list[i]) {
            let (a, b) = (from_ranked[i], from_ranked[j]);
            assert(list[i] == ranked[a] && list[j] == ranked[b]);
            assert(key_le(SortKey::Rank, ranked[a], ranked[b]));
            if key_le(SortKey::Rank, ranked[b], ranked[a]) {
                assert(ranked[a] == unique[from_unique[a]] && ranked[b] == unique[from_unique[b]]);
                lemma_deduped_ascends(sorted, from_shown, unique, from_sorted, from_unique[a], from_unique[b]);
            }
        }
    }
    assert forall|i: int| 0 <= i < list.len() implies #[trigger] reported_first(batch, list[i]) by {
        let start = from_sorted[from_unique[from_ranked[i]]];
        let k = from_batch[from_shown[start]];
        assert(list[i] == ranked[from_ranked[i]]);
        assert(ranked[from_ranked[i]] == unique[from_unique[from_ranked[i]]]);
        assert(unique[from_unique[from_ranked[i]]] == sorted[start]);
        assert(sorted[start] == shown[from_shown[start]]);
        assert(shown[from_shown[start]] == batch[k]);
        assert forall|j: int| 0 <= j < k implies !(#[trigger] batch[j]).text.same(batch[k].text) by {
            if batch[j].text.same(batch[k].text) {
                assert(from_batch.contains(j));
                let m = choose|m: int| 0 <= m < from_batch.len() && from_batch[m] == j;
                assert(m < from_shown[start]) by {
                    if m > from_shown[start] {
                        assert(from_batch[from_shown[start]] < from_batch[m]);
                    }
                }
                assert(from_shown.contains(m));
                let q = choose|q: int| 0 <= q < from_shown.len() && from_shown[q] == m;
                assert(sorted[q] == batch[j]);
                assert(from_sorted.contains(start));
                assert(begins_run(sorted, start));
                if q > start {
                    lemma_precedes_strict(sorted[start].text, sorted[q].text);
                    assert(key_le(SortKey::Text, sorted[start], sorted[q]));
                    assert(false);
                } else if q < start - 1 {
                    assert(key_le(SortKey::Text, sorted[q], sorted[start - 1]));
                    assert(key_le(SortKey::Text, sorted[start - 1], sorted[start]));
                    lemma_precedes_strict(sorted[start - 1].text, sorted[start].text);
                    lemma_precedes_transitive(sorted[start - 1].text, sorted[start].text, sorted[q].text);
                    assert(false);
                }
            }
        }
        assert(first_report(batch, k));
    }
    assert forall|k: int|
        0 <= k < batch.len() && !batch[k].text.hide_help implies #[trigger] has_entry(
        list,
        batch[k].text,
    ) by {
        assert(from_batch.contains(k));
        let m = choose|m: int| 0 <= m < from_batch.len() && from_batch[m] == k;
        assert(from_shown.contains(m));
        let q = choose|q: int| 0 <= q < from_shown.len() && from_shown[q] == m;
        assert(sorted[q] == batch[k]);
        assert(has_entry(unique, sorted[q].text));
        let r = choose|r: int| 0 <= r < unique.len() && (#[trigger] unique[r]).text.same(sorted[q].text);
        assert(from_unique.contains(r));
        let t = choose|t: int| 0 <= t < from_unique.len() && from_unique[t] == r;
        assert(ranked[t] == unique[r]);
        assert(from_ranked.contains(t));
        let i = choose|i: int| 0 <= i < from_ranked.len() && from_ranked[i] == t;
        assert(list[i].text.same(batch[k].text));
    }
}

/// The aggregated list of a batch of reported commands.
pub fn aggregate(batch: &Vec<CommandInfo>) -> (list: Vec<CommandInfo>)
    ensures
        aggregated(batch@, list@),
{
    let (shown, Ghost(from_batch)) = shown_only(batch);
    let (sorted, Ghost(from_shown)) = sort_by(&shown, SortKey::Text);
    let (unique, Ghost(from_sorted)) = dedup_by_text(&sorted);
    let (ranked, Ghost(from_unique)) = sort_by(&unique, SortKey::Rank);
    let (list, Ghost(from_ranked)) = sort_by(&ranked, SortKey::GroupHash);
    proof {
        lemma_steps_aggregate(
            batch@,
            shown@,
            from_batch,
            sorted@,
            from_shown,
            unique@,
            from_sorted,
            ranked@,
            from_unique,
            list@,
            from_ranked,
        );
    }
    list
}

/// Whether two entries are alike for the order of the aggregated list: they
/// are of the same command and have the same rank.
pub open spec fn alike(a: CommandInfo, b: CommandInfo) -> bool {
    a.text.same(b.text) && a.order == b.order
}

/// The order of the aggregated list is a strict total order: it does not
/// put an entry before one that is alike, it puts no two entries before
/// each other, and of two entries that are not alike it puts one before the
/// other.
pub proof fn lemma_entry_lt_strict(a: CommandInfo, b: CommandInfo)
    ensures
        alike(a, b) ==> !entry_lt(a, b),
        entry_lt(a, b) ==> !entry_lt(b, a),
        entry_lt(a, b) || entry_lt(b, a) || alike(a, b),
{
    lemma_precedes_strict(a.text, b.text);
}

/// The order of the aggregated list is transitive, and it does not tell
/// apart entries that are alike.
pub proof fn lemma_entry_lt_transitive(a: CommandInfo, b: CommandInfo, c: CommandInfo)
    ensures
        entry_lt(a, b) && entry_lt(b, c) ==> entry_lt(a, c),
        entry_lt(a, b) && alike(b, c) ==> entry_lt(a, c),
        alike(a, b) && entry_lt(b, c) ==> entry_lt(a, c),
{
    lemma_precedes_transitive(a.text, b.text, c.text);
}

/// Whether `list` ascends strictly in the order of the aggregated list.
pub open spec fn ascending(list: Seq<CommandInfo>) -> bool {
    forall|i: int, j: int| 0 <= i < j < list.len() ==> entry_lt(list[i], list[j])
}

/// Whether `list` is an aggregated list: strictly ascending in the order of
/// the aggregated list, with no command that is hidden from help and no
/// command twice.
pub open spec fn is_aggregate(list: Seq<CommandInfo>) -> bool {
    &&& ascending(list)
    &&& forall|i: int| 0 <= i < list.len() ==> !(#[trigger] list[i]).text.hide_help
    &&& forall|i: int, j: int|
        0 <= i < j < list.len() ==> !(#[trigger] list[i]).text.same((#[trigger] list[j]).text)
}

/// The aggregated list of a batch is an aggregated list, and an aggregated
/// list is its own aggregated list.
pub proof fn lemma_aggregated_is_aggregate(batch: Seq<CommandInfo>, list: Seq<CommandInfo>)
    ensures
        aggregated(batch, list) ==> is_aggregate(list),
        is_aggregate(list) <==> aggregated(list, list),
{
    if aggregated(batch, list) {
        lemma_hidden_left_out(batch, list);
        lemma_each_command_once(batch, list);
    }
    if is_aggregate(list) {
        assert forall|i: int| 0 <= i < list.len() implies #[trigger] reported_first(list, list[i]) by {
            assert(first_report(list, i));
        }
        assert forall|k: int|
            0 <= k < list.len() && !list[k].text.hide_help implies #[trigger] has_entry(
            list,
            list[k].text,
        ) by {
            assert(list[k].text.same(list[k].text));
        }
    }
    if aggregated(list, list) {
        lemma_hidden_left_out(list, list);
        lemma_each_command_once(list, list);
    }
}

/// No command that is hidden from help is in the aggregated list: no entry
/// is hidden, and no entry is a report that the batch holds as hidden.
pub proof fn lemma_hidden_left_out(batch: Seq<CommandInfo>, list: Seq<CommandInfo>)
    requires
        aggregated(batch, list),
    ensures
        forall|i: int| 0 <= i < list.len() ==> !(#[trigger] list[i]).text.hide_help,
        forall|i: int, k: int|
            0 <= i < list.len() && 0 <= k < batch.len() && (#[trigger] batch[k]).text.hide_help
                ==> !(#[trigger] list[i]).text.same(batch[k].text),
{
    assert forall|i: int| 0 <= i < list.len() implies !(#[trigger] list[i]).text.hide_help by {
        assert(reported_first(batch, list[i]));
    }
}

/// Two entries of the aggregated list that are of the same command are the
/// same entry.
proof fn lemma_one_entry_per_command(
    batch: Seq<CommandInfo>,
    list: Seq<CommandInfo>,
    i: int,
    j: int,
)
    requires
        aggregated(batch, list),
        0 <= i < list.len(),
        0 <= j < list.len(),
        list[i].text.same(list[j].text),
    ensures
        i == j,
{
    assert(reported_first(batch, list[i]));
    assert(reported_first(batch, list[j]));
    let ki = choose|k: int| #[trigger] first_report(batch, k) && batch[k] == list[i];
    let kj = choose|k: int| #[trigger] first_report(batch, k) && batch[k] == list[j];
    if ki < kj {
        assert(batch[ki].text.same(batch[kj].text));
    } else if kj < ki {
        assert(batch[kj].text.same(batch[ki].text));
    }
    assert(list[i] == list[j]);
    lemma_entry_lt_strict(list[i], list[j]);
    lemma_entry_lt_strict(list[j], list[i]);
    if i < j {
        assert(entry_lt(list[i], list[j]));
    } else if j < i {
        assert(entry_lt(list[j], list[i]));
    }
}

/// Every command of the batch that is shown in help is in the aggregated
/// list exactly once, however often the batch reports it: it has an entry,
/// and no two entries are of the same command.
pub proof fn lemma_each_command_once(batch: Seq<CommandInfo>, list: Seq<CommandInfo>)
    requires
        aggregated(batch, list),
    ensures
        forall|k: int|
            0 <= k < batch.len() && !batch[k].text.hide_help ==> #[trigger] has_entry(
                list,
                batch[k].text,
            ),
        forall|i: int, j: int|
            0 <= i < list.len() && 0 <= j < list.len() && i != j ==> !(#[trigger] list[i]).text.same(
                (#[trigger] list[j]).text,
            ),
{
    assert forall|i: int, j: int|
        0 <= i < list.len() && 0 <= j < list.len() && i != j implies !(#[trigger] list[i]).text.same(
        (#[trigger] list[j]).text,
    ) by {
        if list[i].text.same(list[j].text) {
            lemma_one_entry_per_command(batch, list, i, j);
        }
    }
}

/// The groups of the aggregated list stand in the order of their hashes,
/// whatever the order of the batch was.
pub proof fn lemma_groups_by_hash(list: Seq<CommandInfo>)
    requires
        is_aggregate(list),
    ensures
        forall|i: int, j: int|
            0 <= i < j < list.len() ==> spec_hash((#[trigger] list[i]).text.group@) <= spec_hash(
                (#[trigger] list[j]).text.group@,
            ),
{
    assert forall|i: int, j: int| 0 <= i < j < list.len() implies spec_hash(
        (#[trigger] list[i]).text.group@,
    ) <= spec_hash((#[trigger] list[j]).text.group@) by {
        assert(entry_lt(list[i], list[j]));
    }
}

/// Within a group the aggregated list ascends by rank, and by command text
/// where the rank is the same.
pub proof fn lemma_ranks_ascend_in_group(list: Seq<CommandInfo>)
    requires
        is_aggregate(list),
    ensures
        forall|i: int, j: int|
            0 <= i < j < list.len() && (#[trigger] list[i]).text.group@ == (
            #[trigger] list[j]).text.group@ ==> list[i].order < list[j].order || (list[i].order
                == list[j].order && list[i].text.precedes(list[j].text)),
{
    assert forall|i: int, j: int|
        0 <= i < j < list.len() && (#[trigger] list[i]).text.group@ == (
        #[trigger] list[j]).text.group@ implies list[i].order < list[j].order || (list[i].order
        == list[j].order && list[i].text.precedes(list[j].text)) by {
        assert(entry_lt(list[i], list[j]));
    }
}

/// In an aggregated list neighbours of one group stand by rank, so the help
/// overlay shows the list in its own order.
pub proof fn lemma_aggregate_ranked_in_groups(list: Seq<CommandInfo>)
    requires
        is_aggregate(list),
    ensures
        ranked_in_groups(list),
{
    assert forall|i: int|
        0 < i < list.len() && list[i - 1].text.group@ == (
        #[trigger] list[i]).text.group@ implies list[i - 1].order <= list[i].order by {
        assert(entry_lt(list[i - 1], list[i]));
    }
}

/// Whether the hash tells the groups of `list` apart: no two different
/// groups have the same hash.
pub open spec fn hash_tells_groups_apart(list: Seq<CommandInfo>) -> bool {
    forall|i: int, j: int|
        0 <= i < list.len() && 0 <= j < list.len() && spec_hash((#[trigger] list[i]).text.group@)
            == spec_hash((#[trigger] list[j]).text.group@) ==> list[i].text.group@
            == list[j].text.group@
}

/// Where the hash tells the groups apart, the entries of a group stand
/// together in the aggregated list: between two entries of one group there
/// are only entries of that group.
pub proof fn lemma_groups_contiguous(list: Seq<CommandInfo>)
    requires
        is_aggregate(list),
        hash_tells_groups_apart(list),
    ensures
        forall|i: int, j: int, k: int|
            0 <= i < j < k < list.len() && (#[trigger] list[i]).text.group@ == (
            #[trigger] list[k]).text.group@ ==> (#[trigger] list[j]).text.group@
                == list[i].text.group@,
{
    assert forall|i: int, j: int, k: int|
        0 <= i < j < k < list.len() && (#[trigger] list[i]).text.group@ == (
        #[trigger] list[k]).text.group@ implies (#[trigger] list[j]).text.group@
        == list[i].text.group@ by {
        assert(entry_lt(list[i], list[j]));
        assert(entry_lt(list[j], list[k]));
    }
}

/// Whether `list` has an entry that is like `entry`.
pub open spec fn has_alike(list: Seq<CommandInfo>, entry: CommandInfo) -> bool {
    exists|i: int| 0 <= i < list.len() && alike(#[trigger] list[i], entry)
}

/// Two strictly ascending lists, each with an entry like every entry of the
/// other, hold like entries at the same places.
pub proof fn lemma_alike_at_same_places(a: Seq<CommandInfo>, b: Seq<CommandInfo>)
    requires
        ascending(a),
        ascending(b),
        forall|i: int| 0 <= i < a.len() ==> #[trigger] has_alike(b, a[i]),
        forall|j: int| 0 <= j < b.len() ==> #[trigger] has_alike(a, b[j]),
    ensures
        a.len() == b.len(),
        forall|i: int| 0 <= i < a.len() ==> alike(#[trigger] a[i], b[i]),
    decreases a.len(),
{
    if a.len() == 0 {
        if b.len() > 0 {
            assert(has_alike(a, b[0]));
        }
    } else {
        let x = a.last();
        assert(has_alike(b, a[a.len() - 1]));
        let y = b.last();
        let jx = choose|j: int| 0 <= j < b.len() && alike(#[trigger] b[j], x);
        assert(has_alike(a, b[b.len() - 1]));
        let iy = choose|i: int| 0 <= i < a.len() && alike(#[trigger] a[i], y);
        if jx < b.len() - 1 {
            assert(entry_lt(b[jx], y));
            lemma_entry_lt_transitive(x, b[jx], y);
            lemma_entry_lt_transitive(x, y, a[iy]);
            lemma_entry_lt_strict(x, a[iy]);
            if iy < a.len() - 1 {
                assert(entry_lt(a[iy], x));
            }
            assert(false);
        }
        let (a0, b0) = (a.drop_last(), b.drop_last());
        assert forall|i: int| 0 <= i < a0.len() implies #[trigger] has_alike(b0, a0[i]) by {
            assert(has_alike(b, a[i]));
            let j = choose|j: int| 0 <= j < b.len() && alike(#[trigger] b[j], a[i]);
            if j == b.len() - 1 {
                assert(entry_lt(a[i], x));
                lemma_entry_lt_strict(a[i], x);
                assert(false);
            }
            assert(alike(b0[j], a0[i]));
        }
        assert forall|j: int| 0 <= j < b0.len() implies #[trigger] has_alike(a0, b0[j]) by {
            assert(has_alike(a, b[j]));
            let i = choose|i: int| 0 <= i < a.len() && alike(#[trigger] a[i], b[j]);
            if i == a.len() - 1 {
                assert(entry_lt(b[j], y));
                lemma_entry_lt_strict(b[j], y);
                assert(false);
            }
            assert(alike(a0[i], b0[j]));
        }
        assert forall|i: int, j: int| 0 <= i < j < a0.len() implies entry_lt(a0[i], a0[j]) by {
            assert(entry_lt(a[i], a[j]));
        }
        assert forall|i: int, j: int| 0 <= i < j < b0.len() implies entry_lt(b0[i], b0[j]) by {
            assert(entry_lt(b[i], b[j]));
        }
        lemma_alike_at_same_places(a0, b0);
        assert forall|i: int| 0 <= i < a.len() implies alike(#[trigger] a[i], b[i]) by {
            if i < a.len() - 1 {
                assert(alike(a0[i], b0[i]));
            }
        }
    }
}

/// Whether every report of `a` that is shown in help has a like report in
/// `b`.
pub open spec fn reports_within(a: Seq<CommandInfo>, b: Seq<CommandInfo>) -> bool {
    forall|k: int| 0 <= k < a.len() && !a[k].text.hide_help ==> #[trigger] has_alike(b, a[k])
}

/// Whether the reports of a command all give it the same rank.
pub open spec fn one_rank_per_command(batch: Seq<CommandInfo>) -> bool {
    forall|k: int, m: int|
        0 <= k < batch.len() && 0 <= m < batch.len() && (#[trigger] batch[k]).text.same(
            (#[trigger] batch[m]).text,
        ) ==> batch[k].order == batch[m].order
}

/// The commands of the aggregated list and their places do not depend on
/// the order of the batch, nor on how often it reports a command: where
/// every command has one rank, batches that report the same commands have
/// aggregated lists with the same commands at the same places.
pub proof fn lemma_batch_order_irrelevant(
    batch_a: Seq<CommandInfo>,
    list_a: Seq<CommandInfo>,
    batch_b: Seq<CommandInfo>,
    list_b: Seq<CommandInfo>,
)
    requires
        aggregated(batch_a, list_a),
        aggregated(batch_b, list_b),
        reports_within(batch_a, batch_b),
        reports_within(batch_b, batch_a),
        one_rank_per_command(batch_a),
        one_rank_per_command(batch_b),
    ensures
        list_a.len() == list_b.len(),
        forall|i: int| 0 <= i < list_a.len() ==> alike(#[trigger] list_a[i], list_b[i]),
{
    lemma_entries_carry_over(batch_a, list_a, batch_b, list_b);
    lemma_entries_carry_over(batch_b, list_b, batch_a, list_a);
    lemma_alike_at_same_places(list_a, list_b);
}

/// What one aggregated list holds, the aggregated list of a batch with the
/// same commands holds too.
proof fn lemma_entries_carry_over(
    batch_a: Seq<CommandInfo>,
    list_a: Seq<CommandInfo>,
    batch_b: Seq<CommandInfo>,
    list_b: Seq<CommandInfo>,
)
    requires
        aggregated(batch_a, list_a),
        aggregated(batch_b, list_b),
        reports_within(batch_a, batch_b),
        one_rank_per_command(batch_b),
    ensures
        forall|i: int| 0 <= i < list_a.len() ==> #[trigger] has_alike(list_b, list_a[i]),
{
    assert forall|i: int| 0 <= i < list_a.len() implies #[trigger] has_alike(list_b, list_a[i]) by {
        assert(reported_first(batch_a, list_a[i]));
        let k = choose|k: int| #[trigger] first_report(batch_a, k) && batch_a[k] == list_a[i];
        assert(has_alike(batch_b, batch_a[k]));
        let m = choose|m: int| 0 <= m < batch_b.len() && alike(#[trigger] batch_b[m], batch_a[k]);
        assert(has_entry(list_b, batch_b[m].text));
        let j = choose|j: int|
            0 <= j < list_b.len() && (#[trigger] list_b[j]).text.same(batch_b[m].text);
        assert(reported_first(batch_b, list_b[j]));
        let n = choose|n: int| #[trigger] first_report(batch_b, n) && batch_b[n] == list_b[j];
        assert(batch_b[n].text.same(batch_b[m].text));
        assert(alike(list_b[j], list_a[i]));
    }
}

/// A batch has one aggregated list.
pub proof fn lemma_aggregated_unique(
    batch: Seq<CommandInfo>,
    list_a: Seq<CommandInfo>,
    list_b: Seq<CommandInfo>,
)
    requires
        aggregated(batch, list_a),
        aggregated(batch, list_b),
    ensures
        list_a == list_b,
{
    lemma_same_entries(batch, list_a, list_b);
    lemma_same_entries(batch, list_b, list_a);
    lemma_alike_at_same_places(list_a, list_b);
    assert forall|i: int| 0 <= i < list_a.len() implies list_a[i] == list_b[i] by {
        assert(reported_first(batch, list_a[i]));
        assert(reported_first(batch, list_b[i]));
        let ka = choose|k: int| #[trigger] first_report(batch, k) && batch[k] == list_a[i];
        let kb = choose|k: int| #[trigger] first_report(batch, k) && batch[k] == list_b[i];
        assert(alike(list_a[i], list_b[i]));
        if ka < kb {
            assert(batch[ka].text.same(batch[kb].text));
        } else if kb < ka {
            assert(batch[kb].text.same(batch[ka].text));
        }
    }
    assert(list_a =~= list_b);
}

/// Of two aggregated lists of one batch each holds the entries of the other.
proof fn lemma_same_entries(
    batch: Seq<CommandInfo>,
    list_a: Seq<CommandInfo>,
    list_b: Seq<CommandInfo>,
)
    requires
        aggregated(batch, list_a),
        aggregated(batch, list_b),
    ensures
        forall|i: int| 0 <= i < list_a.len() ==> #[trigger] has_alike(list_b, list_a[i]),
{
    assert forall|i: int| 0 <= i < list_a.len() implies #[trigger] has_alike(list_b, list_a[i]) by {
        assert(reported_first(batch, list_a[i]));
        let k = choose|k: int| #[trigger] first_report(batch, k) && batch[k] == list_a[i];
        assert(has_entry(list_b, batch[k].text));
        let j = choose|j: int|
            0 <= j < list_b.len() && (#[trigger] list_b[j]).text.same(batch[k].text);
        assert(reported_first(batch, list_b[j]));
        let n = choose|n: int| #[trigger] first_report(batch, n) && batch[n] == list_b[j];
        if n < k {
            assert(batch[n].text.same(batch[k].text));
        } else if k < n {
            assert(batch[k].text.same(batch[n].text));
        }
        assert(alike(list_b[j], list_a[i]));
    }
}

} // verus!
