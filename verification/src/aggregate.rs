//! Aggregation of classification results over a whole text.
//!
//! The aggregator keeps, per script group, the list of blocks seen so far in
//! first-occurrence order, each with the number of code points that fell in
//! it.  Group entries themselves are also kept in first-occurrence order.
//! Unclassified code points are skipped: they count towards the text's total
//! length but towards no block.
//!
//! Counters are plain integers; a percentage is derived by the caller as
//! `counter / total * 100` over the text's full code-point count.  An empty
//! text produces an empty result, so no entry ever divides by zero.

use vstd::prelude::*;

verus! {

use crate::classifier::{classify, detect_char, UnicodeGroup};
use crate::table::spec_table;

/// Mathematical model of one per-block entry: block name and occurrence count.
#[verifier::ext_equal]
pub struct SpecStat {
    pub block: Seq<char>,
    pub counter: nat,
}

/// Mathematical model of one per-group entry: group name and its block
/// entries in first-occurrence order.
#[verifier::ext_equal]
pub struct SpecGroup {
    pub group: Seq<char>,
    pub blocks: Seq<SpecStat>,
}

/// Occurrence count for one block, paired with the block's name.
pub struct UnicodeStats {
    pub block: String,
    pub counter: u128,
}

impl View for UnicodeStats {
    type V = SpecStat;

    open spec fn view(&self) -> SpecStat {
        SpecStat { block: self.block@, counter: self.counter as nat }
    }
}

/// All block statistics collected for one script group.
pub struct GroupStats {
    pub group: String,
    pub blocks: Vec<UnicodeStats>,
}

impl View for GroupStats {
    type V = SpecGroup;

    open spec fn view(&self) -> SpecGroup {
        SpecGroup { group: self.group@, blocks: self.blocks@.map_values(|s: UnicodeStats| s@) }
    }
}

/// The model of a whole result: each group entry abstracted to its model.
pub open spec fn stats_view(s: Seq<GroupStats>) -> Seq<SpecGroup> {
    s.map_values(|g: GroupStats| g@)
}

/// Index of the first name at or after `i` equal to `target`.
pub open spec fn first_index_from(names: Seq<Seq<char>>, target: Seq<char>, i: int) -> Option<int>
    decreases names.len() - i,
{
    if i < 0 || i >= names.len() {
        None
    } else if names[i] == target {
        Some(i)
    } else {
        first_index_from(names, target, i + 1)
    }
}

/// Index of the first name equal to `target`, or `None` when absent.
pub open spec fn first_index(names: Seq<Seq<char>>, target: Seq<char>) -> Option<int> {
    first_index_from(names, target, 0)
}

/// The group names of a result, in order.
pub open spec fn group_names(gs: Seq<SpecGroup>) -> Seq<Seq<char>> {
    gs.map_values(|x: SpecGroup| x.group)
}

/// The block names of one group's entries, in order.
pub open spec fn block_names(bs: Seq<SpecStat>) -> Seq<Seq<char>> {
    bs.map_values(|x: SpecStat| x.block)
}

/// Position of group `g` in the result, by first match.
pub open spec fn group_index(gs: Seq<SpecGroup>, g: Seq<char>) -> Option<int> {
    first_index(group_names(gs), g)
}

/// Position of block `b` in one group's entries, by first match.
pub open spec fn stat_index(bs: Seq<SpecStat>, b: Seq<char>) -> Option<int> {
    first_index(block_names(bs), b)
}

/// One observation of block `b`: find-or-create its entry, then count it.
pub open spec fn record_in_blocks(bs: Seq<SpecStat>, b: Seq<char>) -> Seq<SpecStat> {
    match stat_index(bs, b) {
        None => bs.push(SpecStat { block: b, counter: 1 }),
        Some(m) => bs.update(m, SpecStat { block: b, counter: bs[m].counter + 1 }),
    }
}

/// One observation of `(g, b)`: find-or-create the group entry, then record
/// the block inside it.
pub open spec fn record(gs: Seq<SpecGroup>, g: Seq<char>, b: Seq<char>) -> Seq<SpecGroup> {
    match group_index(gs, g) {
        None => gs.push(SpecGroup { group: g, blocks: seq![SpecStat { block: b, counter: 1 }] }),
        Some(k) => gs.update(
            k,
            SpecGroup { group: g, blocks: record_in_blocks(gs[k].blocks, b) },
        ),
    }
}

/// The aggregated statistics of a text: classify each code point in order
/// and record every classified one; unclassified code points are skipped.
pub open spec fn agg(text: Seq<char>) -> Seq<SpecGroup>
    decreases text.len(),
{
    if text.len() == 0 {
        Seq::empty()
    } else {
        let prev = agg(text.drop_last());
        match classify(text.last() as u32) {
            Some(i) => record(prev, spec_table()[i].group, spec_table()[i].block),
            None => prev,
        }
    }
}

/// How many code points of `text` classify to group `g` and block `b`.
pub open spec fn count_matching(text: Seq<char>, g: Seq<char>, b: Seq<char>) -> nat
    decreases text.len(),
{
    if text.len() == 0 {
        0
    } else {
        count_matching(text.drop_last(), g, b) + match classify(text.last() as u32) {
            Some(i) => if spec_table()[i].group == g && spec_table()[i].block == b {
                1nat
            } else {
                0nat
            },
            None => 0nat,
        }
    }
}

/// The counter stored for block `b` in one group's entries, or zero when
/// absent.
pub open spec fn stat_count(bs: Seq<SpecStat>, b: Seq<char>) -> nat {
    match stat_index(bs, b) {
        None => 0,
        Some(m) => bs[m].counter,
    }
}

/// The counter stored for `(g, b)` in a result, or zero when absent.
pub open spec fn count_of(gs: Seq<SpecGroup>, g: Seq<char>, b: Seq<char>) -> nat {
    match group_index(gs, g) {
        None => 0,
        Some(k) => stat_count(gs[k].blocks, b),
    }
}

/// How many code points of `text` classify to any block at all.
pub open spec fn classified_count(text: Seq<char>) -> nat
    decreases text.len(),
{
    if text.len() == 0 {
        0
    } else {
        classified_count(text.drop_last()) + if classify(text.last() as u32) is Some {
            1nat
        } else {
            0nat
        }
    }
}

/// Sum of the counters of one group's entries.
pub open spec fn sum_blocks(bs: Seq<SpecStat>) -> nat
    decreases bs.len(),
{
    if bs.len() == 0 {
        0
    } else {
        sum_blocks(bs.drop_last()) + bs.last().counter
    }
}

/// Sum of all counters of a whole result.
pub open spec fn sum_groups(gs: Seq<SpecGroup>) -> nat
    decreases gs.len(),
{
    if gs.len() == 0 {
        0
    } else {
        sum_groups(gs.drop_last()) + sum_blocks(gs.last().blocks)
    }
}

/// Well-formed group entries: block names distinct, every counter positive.
pub open spec fn wf_blocks(bs: Seq<SpecStat>) -> bool {
    &&& forall|i: int, j: int| 0 <= i < j < bs.len() ==> bs[i].block != bs[j].block
    &&& forall|i: int| 0 <= i < bs.len() ==> (#[trigger] bs[i].counter) >= 1
}

/// Well-formed result: group names distinct, every group entry well-formed
/// and holding at least one block.
pub open spec fn wf_stats(gs: Seq<SpecGroup>) -> bool {
    &&& forall|i: int, j: int| 0 <= i < j < gs.len() ==> gs[i].group != gs[j].group
    &&& forall|k: int| 0 <= k < gs.len() ==> wf_blocks(#[trigger] gs[k].blocks)
    &&& forall|k: int| 0 <= k < gs.len() ==> (#[trigger] gs[k].blocks).len() >= 1
}

/// Every counter of the result is at most `c`.
pub open spec fn counters_le(gs: Seq<SpecGroup>, c: nat) -> bool {
    forall|k: int, m: int|
        0 <= k < gs.len() && 0 <= m < gs[k].blocks.len() ==> (#[trigger] gs[k].blocks[m].counter)
            <= c
}

proof fn lemma_first_index_from_characterizes(names: Seq<Seq<char>>, target: Seq<char>, i: int)
    requires
        0 <= i <= names.len(),
    ensures
        match first_index_from(names, target, i) {
            Some(k) => i <= k < names.len() && names[k] == target && (forall|j: int|
                i <= j < k ==> names[j] != target),
            None => forall|j: int| i <= j < names.len() ==> names[j] != target,
        },
    decreases names.len() - i,
{
    if i < names.len() && names[i] != target {
        lemma_first_index_from_characterizes(names, target, i + 1);
    }
}

/// The first-match index is the name's position when present and `None`
/// when absent.
pub proof fn lemma_first_index_characterizes(names: Seq<Seq<char>>, target: Seq<char>)
    ensures
        match first_index(names, target) {
            Some(k) => 0 <= k < names.len() && names[k] == target && (forall|j: int|
                0 <= j < k ==> names[j] != target),
            None => forall|j: int| 0 <= j < names.len() ==> names[j] != target,
        },
{
    lemma_first_index_from_characterizes(names, target, 0);
}

proof fn lemma_first_index_from_witness(names: Seq<Seq<char>>, target: Seq<char>, i: int, k: int)
    requires
        0 <= i <= k < names.len(),
        names[k] == target,
        forall|j: int| i <= j < k ==> names[j] != target,
    ensures
        first_index_from(names, target, i) == Some(k),
    decreases k - i,
{
    if i < k {
        lemma_first_index_from_witness(names, target, i + 1, k);
    }
}

/// A name with no equal name before it is found at exactly its position.
proof fn lemma_first_index_witness(names: Seq<Seq<char>>, target: Seq<char>, k: int)
    requires
        0 <= k < names.len(),
        names[k] == target,
        forall|j: int| 0 <= j < k ==> names[j] != target,
    ensures
        first_index(names, target) == Some(k),
{
    lemma_first_index_from_witness(names, target, 0, k);
}

/// An absent name is not found.
proof fn lemma_first_index_none(names: Seq<Seq<char>>, target: Seq<char>)
    requires
        forall|j: int| 0 <= j < names.len() ==> names[j] != target,
    ensures
        first_index(names, target) is None,
{
    lemma_first_index_characterizes(names, target);
    if first_index(names, target) is Some {
        let k = first_index(names, target)->Some_0;
        assert(names[k] != target);
    }
}

/// Recording block `b` raises its stored counter by one and leaves every
/// other block's counter unchanged.
proof fn lemma_record_in_blocks_count(bs: Seq<SpecStat>, b: Seq<char>, b2: Seq<char>)
    ensures
        stat_count(record_in_blocks(bs, b), b2) == stat_count(bs, b2) + (if b2 == b {
            1int
        } else {
            0int
        }),
{
    let names = block_names(bs);
    lemma_first_index_characterizes(names, b);
    match stat_index(bs, b) {
        None => {
            let bs2 = bs.push(SpecStat { block: b, counter: 1 });
            assert(block_names(bs2) =~= names.push(b));
            if b2 == b {
                lemma_first_index_witness(block_names(bs2), b2, bs.len() as int);
            } else {
                lemma_first_index_characterizes(names, b2);
                match stat_index(bs, b2) {
                    Some(m) => {
                        lemma_first_index_witness(block_names(bs2), b2, m);
                    },
                    None => {
                        lemma_first_index_none(block_names(bs2), b2);
                    },
                }
            }
        },
        Some(m) => {
            let bs2 = bs.update(m, SpecStat { block: b, counter: bs[m].counter + 1 });
            assert(block_names(bs2) =~= names);
            assert(stat_index(bs2, b2) == stat_index(bs, b2));
            if b2 == b {
            } else {
                lemma_first_index_characterizes(names, b2);
                match stat_index(bs, b2) {
                    Some(m2) => {
                        assert(bs2[m2] == bs[m2]);
                    },
                    None => {},
                }
            }
        },
    }
}

/// Recording a block keeps a group entry well-formed.
proof fn lemma_record_in_blocks_wf(bs: Seq<SpecStat>, b: Seq<char>)
    requires
        wf_blocks(bs),
    ensures
        wf_blocks(record_in_blocks(bs, b)),
{
    lemma_first_index_characterizes(block_names(bs), b);
    match stat_index(bs, b) {
        None => {
            let bs2 = bs.push(SpecStat { block: b, counter: 1 });
            assert forall|i: int, j: int| 0 <= i < j < bs2.len() implies bs2[i].block
                != bs2[j].block by {
                if j == bs.len() {
                    assert(block_names(bs)[i] == bs[i].block);
                }
            }
        },
        Some(m) => {
            let bs2 = bs.update(m, SpecStat { block: b, counter: bs[m].counter + 1 });
            assert forall|i: int, j: int| 0 <= i < j < bs2.len() implies bs2[i].block
                != bs2[j].block by {
                assert(bs[i].block != bs[j].block);
            }
        },
    }
}

/// Recording a block raises no counter above the old bound plus one.
proof fn lemma_record_in_blocks_bound(bs: Seq<SpecStat>, b: Seq<char>, c: nat)
    requires
        forall|m: int| 0 <= m < bs.len() ==> (#[trigger] bs[m].counter) <= c,
    ensures
        forall|m: int|
            0 <= m < record_in_blocks(bs, b).len() ==> (#[trigger] record_in_blocks(bs, b)[m].counter)
                <= c + 1,
{
    lemma_first_index_characterizes(block_names(bs), b);
}

/// Appending an entry adds its counter to the sum.
proof fn lemma_sum_blocks_push(bs: Seq<SpecStat>, x: SpecStat)
    ensures
        sum_blocks(bs.push(x)) == sum_blocks(bs) + x.counter,
{
    assert(bs.push(x).drop_last() =~= bs);
    assert(bs.push(x).last() == x);
}

/// Replacing an entry shifts the sum by the counter difference.
proof fn lemma_sum_blocks_update(bs: Seq<SpecStat>, m: int, x: SpecStat)
    requires
        0 <= m < bs.len(),
    ensures
        sum_blocks(bs.update(m, x)) == sum_blocks(bs) - bs[m].counter + x.counter,
    decreases bs.len(),
{
    let bs2 = bs.update(m, x);
    if m == bs.len() - 1 {
        assert(bs2.drop_last() =~= bs.drop_last());
        assert(bs2.last() == x);
    } else {
        assert(bs2.drop_last() =~= bs.drop_last().update(m, x));
        assert(bs2.last() == bs.last());
        lemma_sum_blocks_update(bs.drop_last(), m, x);
    }
}

/// Recording a block raises the group's counter sum by exactly one.
proof fn lemma_record_in_blocks_sum(bs: Seq<SpecStat>, b: Seq<char>)
    ensures
        sum_blocks(record_in_blocks(bs, b)) == sum_blocks(bs) + 1,
{
    lemma_first_index_characterizes(block_names(bs), b);
    match stat_index(bs, b) {
        None => {
            lemma_sum_blocks_push(bs, SpecStat { block: b, counter: 1 });
        },
        Some(m) => {
            lemma_sum_blocks_update(bs, m, SpecStat { block: b, counter: bs[m].counter + 1 });
        },
    }
}

/// Recording `(g, b)` raises that pair's stored counter by one and leaves
/// every other pair's counter unchanged.
proof fn lemma_record_count(gs: Seq<SpecGroup>, g: Seq<char>, b: Seq<char>, g2: Seq<char>, b2: Seq<char>)
    ensures
        count_of(record(gs, g, b), g2, b2) == count_of(gs, g2, b2) + (if g2 == g && b2 == b {
            1int
        } else {
            0int
        }),
{
    let names = group_names(gs);
    lemma_first_index_characterizes(names, g);
    match group_index(gs, g) {
        None => {
            let blocks = seq![SpecStat { block: b, counter: 1nat }];
            let gs2 = gs.push(SpecGroup { group: g, blocks: blocks });
            assert(group_names(gs2) =~= names.push(g));
            if g2 == g {
                lemma_first_index_witness(group_names(gs2), g2, gs.len() as int);
                assert(block_names(blocks)[0] == b);
                if b2 == b {
                    lemma_first_index_witness(block_names(blocks), b2, 0);
                } else {
                    lemma_first_index_none(block_names(blocks), b2);
                }
            } else {
                lemma_first_index_characterizes(names, g2);
                match group_index(gs, g2) {
                    Some(k2) => {
                        lemma_first_index_witness(group_names(gs2), g2, k2);
                        assert(gs2[k2] == gs[k2]);
                    },
                    None => {
                        lemma_first_index_none(group_names(gs2), g2);
                    },
                }
            }
        },
        Some(k) => {
            let gs2 = gs.update(
                k,
                SpecGroup { group: g, blocks: record_in_blocks(gs[k].blocks, b) },
            );
            assert(group_names(gs2) =~= names);
            assert(group_index(gs2, g2) == group_index(gs, g2));
            if g2 == g {
                lemma_record_in_blocks_count(gs[k].blocks, b, b2);
            } else {
                lemma_first_index_characterizes(names, g2);
                match group_index(gs, g2) {
                    Some(k2) => {
                        assert(gs2[k2] == gs[k2]);
                    },
                    None => {},
                }
            }
        },
    }
}

/// Recording an observation keeps the whole result well-formed.
proof fn lemma_record_wf(gs: Seq<SpecGroup>, g: Seq<char>, b: Seq<char>)
    requires
        wf_stats(gs),
    ensures
        wf_stats(record(gs, g, b)),
{
    let names = group_names(gs);
    lemma_first_index_characterizes(names, g);
    match group_index(gs, g) {
        None => {
            let blocks = seq![SpecStat { block: b, counter: 1nat }];
            let gs2 = gs.push(SpecGroup { group: g, blocks: blocks });
            assert forall|i: int, j: int| 0 <= i < j < gs2.len() implies gs2[i].group
                != gs2[j].group by {
                if j == gs.len() {
                    assert(names[i] == gs[i].group);
                }
            }
            assert forall|k: int| 0 <= k < gs2.len() implies wf_blocks(#[trigger] gs2[k].blocks)
                && gs2[k].blocks.len() >= 1 by {
                if k < gs.len() {
                    assert(gs2[k] == gs[k]);
                } else {
                    assert(gs2[k].blocks == blocks);
                    assert(blocks[0].counter >= 1);
                }
            }
        },
        Some(k) => {
            let gs2 = gs.update(
                k,
                SpecGroup { group: g, blocks: record_in_blocks(gs[k].blocks, b) },
            );
            assert forall|i: int, j: int| 0 <= i < j < gs2.len() implies gs2[i].group
                != gs2[j].group by {
                assert(gs[i].group != gs[j].group);
            }
            lemma_record_in_blocks_wf(gs[k].blocks, b);
            assert forall|k2: int| 0 <= k2 < gs2.len() implies wf_blocks(#[trigger] gs2[k2].blocks)
                && gs2[k2].blocks.len() >= 1 by {
                if k2 != k {
                    assert(gs2[k2] == gs[k2]);
                } else {
                    lemma_first_index_characterizes(block_names(gs[k].blocks), b);
                }
            }
        },
    }
}

/// Recording an observation raises no counter above the old bound plus one.
proof fn lemma_record_bound(gs: Seq<SpecGroup>, g: Seq<char>, b: Seq<char>, c: nat)
    requires
        counters_le(gs, c),
    ensures
        counters_le(record(gs, g, b), c + 1),
{
    lemma_first_index_characterizes(group_names(gs), g);
    match group_index(gs, g) {
        None => {
            let blocks = seq![SpecStat { block: b, counter: 1nat }];
            let gs2 = gs.push(SpecGroup { group: g, blocks: blocks });
            assert forall|k: int, m: int|
                0 <= k < gs2.len() && 0 <= m < gs2[k].blocks.len() implies (#[trigger] gs2[k].blocks[m].counter)
                <= c + 1 by {
                if k < gs.len() {
                    assert(gs2[k] == gs[k]);
                    assert(gs[k].blocks[m].counter <= c);
                } else {
                    assert(gs2[k].blocks == blocks);
                }
            }
        },
        Some(k) => {
            assert(forall|m: int|
                0 <= m < gs[k].blocks.len() ==> (#[trigger] gs[k].blocks[m].counter) <= c);
            lemma_record_in_blocks_bound(gs[k].blocks, b, c);
            let gs2 = gs.update(
                k,
                SpecGroup { group: g, blocks: record_in_blocks(gs[k].blocks, b) },
            );
            assert forall|k2: int, m: int|
                0 <= k2 < gs2.len() && 0 <= m < gs2[k2].blocks.len() implies (#[trigger] gs2[k2].blocks[m].counter)
                <= c + 1 by {
                if k2 != k {
                    assert(gs2[k2] == gs[k2]);
                    assert(gs[k2].blocks[m].counter <= c);
                }
            }
        },
    }
}

/// Appending a group entry adds its counter sum to the total.
proof fn lemma_sum_groups_push(gs: Seq<SpecGroup>, x: SpecGroup)
    ensures
        sum_groups(gs.push(x)) == sum_groups(gs) + sum_blocks(x.blocks),
{
    assert(gs.push(x).drop_last() =~= gs);
    assert(gs.push(x).last() == x);
}

/// Replacing a group entry shifts the total by the difference of its sums.
proof fn lemma_sum_groups_update(gs: Seq<SpecGroup>, k: int, x: SpecGroup)
    requires
        0 <= k < gs.len(),
    ensures
        sum_groups(gs.update(k, x)) == sum_groups(gs) - sum_blocks(gs[k].blocks) + sum_blocks(
            x.blocks,
        ),
    decreases gs.len(),
{
    let gs2 = gs.update(k, x);
    if k == gs.len() - 1 {
        assert(gs2.drop_last() =~= gs.drop_last());
        assert(gs2.last() == x);
    } else {
        assert(gs2.drop_last() =~= gs.drop_last().update(k, x));
        assert(gs2.last() == gs.last());
        lemma_sum_groups_update(gs.drop_last(), k, x);
    }
}

/// Recording an observation raises the total counter sum by exactly one.
proof fn lemma_record_sum(gs: Seq<SpecGroup>, g: Seq<char>, b: Seq<char>)
    ensures
        sum_groups(record(gs, g, b)) == sum_groups(gs) + 1,
{
    lemma_first_index_characterizes(group_names(gs), g);
    match group_index(gs, g) {
        None => {
            let blocks = seq![SpecStat { block: b, counter: 1nat }];
            assert(blocks.drop_last() =~= Seq::<SpecStat>::empty());
            assert(sum_blocks(Seq::<SpecStat>::empty()) == 0);
            assert(sum_blocks(blocks) == 1);
            lemma_sum_groups_push(gs, SpecGroup { group: g, blocks: blocks });
        },
        Some(k) => {
            lemma_record_in_blocks_sum(gs[k].blocks, b);
            lemma_sum_groups_update(
                gs,
                k,
                SpecGroup { group: g, blocks: record_in_blocks(gs[k].blocks, b) },
            );
        },
    }
}

/// Invariants of aggregation, for every text: the result is well-formed,
/// no counter exceeds the text's length, the counters sum to the number of
/// classified code points, and the counter stored for any pair of names is
/// the exact number of code points that classify to it.
pub proof fn lemma_agg_invariant(text: Seq<char>)
    ensures
        wf_stats(agg(text)),
        counters_le(agg(text), text.len()),
        sum_groups(agg(text)) == classified_count(text),
        forall|g: Seq<char>, b: Seq<char>| #[trigger] count_of(agg(text), g, b) == count_matching(
            text,
            g,
            b,
        ),
    decreases text.len(),
{
    if text.len() == 0 {
        assert(group_names(agg(text)).len() == 0);
        assert forall|g: Seq<char>, b: Seq<char>| #[trigger] count_of(agg(text), g, b)
            == count_matching(text, g, b) by {
            assert(first_index_from(group_names(agg(text)), g, 0) is None);
        }
    } else {
        let prev = text.drop_last();
        lemma_agg_invariant(prev);
        match classify(text.last() as u32) {
            Some(i) => {
                let g0 = spec_table()[i].group;
                let b0 = spec_table()[i].block;
                lemma_record_wf(agg(prev), g0, b0);
                lemma_record_bound(agg(prev), g0, b0, prev.len());
                lemma_record_sum(agg(prev), g0, b0);
                assert forall|g: Seq<char>, b: Seq<char>| #[trigger] count_of(agg(text), g, b)
                    == count_matching(text, g, b) by {
                    lemma_record_count(agg(prev), g0, b0, g, b);
                    assert(count_of(agg(prev), g, b) == count_matching(prev, g, b));
                }
            },
            None => {
                assert forall|k: int, m: int|
                    0 <= k < agg(text).len() && 0 <= m < agg(text)[k].blocks.len() implies (
                #[trigger] agg(text)[k].blocks[m].counter) <= text.len() by {
                    assert(agg(prev)[k].blocks[m].counter <= prev.len());
                }
                assert forall|g: Seq<char>, b: Seq<char>| #[trigger] count_of(agg(text), g, b)
                    == count_matching(text, g, b) by {
                    assert(count_of(agg(prev), g, b) == count_matching(prev, g, b));
                }
            },
        }
    }
}

/// Exact counting: the counter of every reported block entry equals the
/// number of code points of the text that classify to that entry's group
/// and block.
pub proof fn lemma_stats_exact_counts(text: Seq<char>, k: int, m: int)
    requires
        0 <= k < agg(text).len(),
        0 <= m < agg(text)[k].blocks.len(),
    ensures
        agg(text)[k].blocks[m].counter == count_matching(
            text,
            agg(text)[k].group,
            agg(text)[k].blocks[m].block,
        ),
{
    lemma_agg_invariant(text);
    let gs = agg(text);
    let g = gs[k].group;
    let b = gs[k].blocks[m].block;
    assert(group_names(gs)[k] == g);
    assert forall|j: int| 0 <= j < k implies group_names(gs)[j] != g by {
        assert(gs[j].group != gs[k].group);
    }
    lemma_first_index_witness(group_names(gs), g, k);
    assert(wf_blocks(gs[k].blocks));
    assert(block_names(gs[k].blocks)[m] == b);
    assert forall|j: int| 0 <= j < m implies block_names(gs[k].blocks)[j] != b by {
        assert(gs[k].blocks[j].block != gs[k].blocks[m].block);
    }
    lemma_first_index_witness(block_names(gs[k].blocks), b, m);
    assert(count_of(gs, g, b) == gs[k].blocks[m].counter);
}

proof fn lemma_classified_le(text: Seq<char>)
    ensures
        classified_count(text) <= text.len(),
        (classified_count(text) == text.len()) <==> (forall|p: int|
            0 <= p < text.len() ==> (#[trigger] classify(text[p] as u32)) is Some),
    decreases text.len(),
{
    if text.len() == 0 {
    } else {
        let prev = text.drop_last();
        lemma_classified_le(prev);
        if classify(text.last() as u32) is Some {
            if classified_count(text) == text.len() {
                assert forall|p: int| 0 <= p < text.len() implies (#[trigger] classify(
                    text[p] as u32,
                )) is Some by {
                    if p < prev.len() {
                        assert(prev[p] == text[p]);
                        assert(classify(prev[p] as u32) is Some);
                    } else {
                        assert(text[p] == text.last());
                    }
                }
            }
            if forall|p: int| 0 <= p < text.len() ==> (#[trigger] classify(text[p] as u32))
                is Some {
                assert forall|p: int| 0 <= p < prev.len() implies (#[trigger] classify(
                    prev[p] as u32,
                )) is Some by {
                    assert(prev[p] == text[p]);
                }
                assert(classified_count(prev) == prev.len());
            }
        } else {
            assert(classified_count(text) < text.len());
            assert(text[text.len() - 1] == text.last());
            assert(!(classify(text[text.len() - 1] as u32) is Some));
        }
    }
}

/// Conservation: the counters sum to the number of classified code points,
/// which never exceeds the text's code-point count; equality holds exactly
/// when every code point of the text falls in a declared block.
pub proof fn lemma_stats_total(text: Seq<char>)
    ensures
        sum_groups(agg(text)) == classified_count(text),
        sum_groups(agg(text)) <= text.len(),
        (sum_groups(agg(text)) == text.len()) <==> (forall|p: int|
            0 <= p < text.len() ==> (#[trigger] classify(text[p] as u32)) is Some),
{
    lemma_agg_invariant(text);
    lemma_classified_le(text);
}

/// No hidden state: aggregation is a pure function of the text, so two runs
/// over equal texts produce equal results.
pub proof fn lemma_stats_repeatable(t1: Seq<char>, t2: Seq<char>)
    requires
        t1 == t2,
    ensures
        agg(t1) == agg(t2),
{
}

/// Character `c` classifies to group `g` and block `b`.
pub open spec fn classifies_to(c: char, g: Seq<char>, b: Seq<char>) -> bool {
    match classify(c as u32) {
        Some(i) => spec_table()[i].group == g && spec_table()[i].block == b,
        None => false,
    }
}

/// Position of the first code point of `text` that classifies to `(g, b)`;
/// meaningful only when some code point does.
pub open spec fn first_pos(text: Seq<char>, g: Seq<char>, b: Seq<char>) -> int
    decreases text.len(),
{
    if text.len() == 0 {
        0
    } else if count_matching(text.drop_last(), g, b) > 0 {
        first_pos(text.drop_last(), g, b)
    } else {
        text.len() - 1
    }
}

proof fn lemma_count_positive_at(text: Seq<char>, g: Seq<char>, b: Seq<char>, p: int)
    requires
        0 <= p < text.len(),
        classifies_to(text[p], g, b),
    ensures
        count_matching(text, g, b) >= 1,
    decreases text.len(),
{
    if p == text.len() - 1 {
        assert(text[p] == text.last());
    } else {
        assert(text.drop_last()[p] == text[p]);
        lemma_count_positive_at(text.drop_last(), g, b, p);
    }
}

/// What `first_pos` returns when `(g, b)` occurs at all: the position of a
/// code point that classifies to `(g, b)`, with no earlier one doing so.
pub proof fn lemma_first_pos_characterizes(text: Seq<char>, g: Seq<char>, b: Seq<char>)
    requires
        count_matching(text, g, b) >= 1,
    ensures
        0 <= first_pos(text, g, b) < text.len(),
        classifies_to(text[first_pos(text, g, b)], g, b),
        forall|p: int| 0 <= p < first_pos(text, g, b) ==> !classifies_to(#[trigger] text[p], g, b),
    decreases text.len(),
{
    let prev = text.drop_last();
    let fp = first_pos(text, g, b);
    if count_matching(prev, g, b) > 0 {
        lemma_first_pos_characterizes(prev, g, b);
        assert(text[fp] == prev[fp]);
        assert forall|p: int| 0 <= p < fp implies !classifies_to(#[trigger] text[p], g, b) by {
            assert(text[p] == prev[p]);
        }
    } else {
        assert(fp == text.len() - 1);
        assert(classifies_to(text.last(), g, b));
        assert forall|p: int| 0 <= p < fp implies !classifies_to(#[trigger] text[p], g, b) by {
            if classifies_to(text[p], g, b) {
                assert(prev[p] == text[p]);
                lemma_count_positive_at(prev, g, b, p);
            }
        }
    }
}

/// Within every group entry, blocks stand in the order of their first
/// occurrence in the text.
pub open spec fn blocks_ordered(text: Seq<char>, gs: Seq<SpecGroup>) -> bool {
    forall|k: int, m1: int, m2: int|
        0 <= k < gs.len() && 0 <= m1 < m2 < gs[k].blocks.len() ==> first_pos(
            text,
            gs[k].group,
            (#[trigger] gs[k].blocks[m1]).block,
        ) < first_pos(text, gs[k].group, (#[trigger] gs[k].blocks[m2]).block)
}

proof fn lemma_agg_present(text: Seq<char>)
    ensures
        forall|k: int, m: int|
            0 <= k < agg(text).len() && 0 <= m < agg(text)[k].blocks.len() ==> count_matching(
                text,
                agg(text)[k].group,
                (#[trigger] agg(text)[k].blocks[m]).block,
            ) >= 1,
{
    lemma_agg_invariant(text);
    assert forall|k: int, m: int|
        0 <= k < agg(text).len() && 0 <= m < agg(text)[k].blocks.len() implies count_matching(
        text,
        agg(text)[k].group,
        (#[trigger] agg(text)[k].blocks[m]).block,
    ) >= 1 by {
        lemma_stats_exact_counts(text, k, m);
        assert(wf_blocks(agg(text)[k].blocks));
        assert(agg(text)[k].blocks[m].counter >= 1);
    }
}

proof fn lemma_agg_ordered(text: Seq<char>)
    ensures
        blocks_ordered(text, agg(text)),
    decreases text.len(),
{
    if text.len() == 0 {
    } else {
        let prev = text.drop_last();
        let gs = agg(prev);
        lemma_agg_ordered(prev);
        lemma_agg_invariant(prev);
        lemma_agg_present(prev);
        match classify(text.last() as u32) {
            None => {
                assert forall|k: int, m1: int, m2: int|
                    0 <= k < agg(text).len() && 0 <= m1 < m2 < agg(text)[k].blocks.len() implies
                    first_pos(text, agg(text)[k].group, (#[trigger] agg(text)[k].blocks[m1]).block)
                    < first_pos(
                    text,
                    agg(text)[k].group,
                    (#[trigger] agg(text)[k].blocks[m2]).block,
                ) by {
                    assert(count_matching(prev, gs[k].group, gs[k].blocks[m1].block) >= 1);
                    assert(count_matching(prev, gs[k].group, gs[k].blocks[m2].block) >= 1);
                }
            },
            Some(i) => {
                crate::classifier::lemma_classify_first_match(text.last() as u32);
                let g0 = spec_table()[i].group;
                let b0 = spec_table()[i].block;
                let gs2 = agg(text);
                lemma_first_index_characterizes(group_names(gs), g0);
                assert forall|k: int, m1: int, m2: int|
                    0 <= k < gs2.len() && 0 <= m1 < m2 < gs2[k].blocks.len() implies first_pos(
                    text,
                    gs2[k].group,
                    (#[trigger] gs2[k].blocks[m1]).block,
                ) < first_pos(text, gs2[k].group, (#[trigger] gs2[k].blocks[m2]).block) by {
                    lemma_ordered_step(text, k, m1, m2, i);
                }
            },
        }
    }
}

/// One step of the ordering proof: with the text ending in a code point that
/// classifies to entry `i`, any two blocks of one group entry of the result
/// stand in first-occurrence order.
proof fn lemma_ordered_step(text: Seq<char>, k: int, m1: int, m2: int, i: int)
    requires
        text.len() > 0,
        classify(text.last() as u32) == Some(i),
        0 <= i < spec_table().len(),
        0 <= k < agg(text).len(),
        0 <= m1 < m2 < agg(text)[k].blocks.len(),
        blocks_ordered(text.drop_last(), agg(text.drop_last())),
    ensures
        first_pos(text, agg(text)[k].group, agg(text)[k].blocks[m1].block) < first_pos(
            text,
            agg(text)[k].group,
            agg(text)[k].blocks[m2].block,
        ),
{
    let prev = text.drop_last();
    let gs = agg(prev);
    let gs2 = agg(text);
    let g0 = spec_table()[i].group;
    let b0 = spec_table()[i].block;
    lemma_agg_invariant(prev);
    lemma_agg_present(prev);
    lemma_first_index_characterizes(group_names(gs), g0);
    assert(gs2 == record(gs, g0, b0));
    match group_index(gs, g0) {
        None => {
            if k < gs.len() {
                assert(gs2[k] == gs[k]);
                lemma_pair_stable(text, gs[k].group, gs[k].blocks[m1].block, gs[k].blocks[m2].block, k, m1, m2);
            } else {
                assert(gs2[k].blocks.len() == 1);
            }
        },
        Some(kk) => {
            if k != kk {
                assert(gs2[k] == gs[k]);
                lemma_pair_stable(text, gs[k].group, gs[k].blocks[m1].block, gs[k].blocks[m2].block, k, m1, m2);
            } else {
                let bs = gs[kk].blocks;
                assert(gs[kk].group == g0);
                lemma_first_index_characterizes(block_names(bs), b0);
                match stat_index(bs, b0) {
                    None => {
                        assert(gs2[k].blocks =~= bs.push(SpecStat { block: b0, counter: 1 }));
                        if m2 < bs.len() {
                            lemma_pair_stable(text, g0, bs[m1].block, bs[m2].block, k, m1, m2);
                        } else {
                            assert(gs2[k].blocks[m2].block == b0);
                            assert(stat_count(bs, b0) == 0);
                            assert(count_of(gs, g0, b0) == 0);
                            assert(count_matching(prev, g0, b0) == 0);
                            assert(first_pos(text, g0, b0) == text.len() - 1);
                            assert(gs2[k].blocks[m1] == bs[m1]);
                            assert(count_matching(prev, g0, bs[m1].block) >= 1);
                            lemma_first_pos_characterizes(prev, g0, bs[m1].block);
                            assert(first_pos(text, g0, bs[m1].block) == first_pos(
                                prev,
                                g0,
                                bs[m1].block,
                            ));
                        }
                    },
                    Some(mm) => {
                        assert(gs2[k].blocks[m1].block == bs[m1].block);
                        assert(gs2[k].blocks[m2].block == bs[m2].block);
                        lemma_pair_stable(text, g0, bs[m1].block, bs[m2].block, kk, m1, m2);
                    },
                }
            }
        },
    }
}

/// Carrying a pair of blocks of an existing entry from the text's prefix to
/// the whole text keeps their first occurrences, and so their order.
proof fn lemma_pair_stable(text: Seq<char>, g: Seq<char>, b1: Seq<char>, b2: Seq<char>, k: int, m1: int, m2: int)
    requires
        text.len() > 0,
        blocks_ordered(text.drop_last(), agg(text.drop_last())),
        0 <= k < agg(text.drop_last()).len(),
        0 <= m1 < m2 < agg(text.drop_last())[k].blocks.len(),
        agg(text.drop_last())[k].group == g,
        agg(text.drop_last())[k].blocks[m1].block == b1,
        agg(text.drop_last())[k].blocks[m2].block == b2,
    ensures
        first_pos(text, g, b1) < first_pos(text, g, b2),
{
    let prev = text.drop_last();
    lemma_agg_present(prev);
    assert(count_matching(prev, g, b1) >= 1);
    assert(count_matching(prev, g, b2) >= 1);
    assert(first_pos(text, g, b1) == first_pos(prev, g, b1));
    assert(first_pos(text, g, b2) == first_pos(prev, g, b2));
    assert(first_pos(prev, g, b1) < first_pos(prev, g, b2));
}

/// Insertion order: within each group entry of the aggregated result, blocks
/// appear in the order of their first occurrence in the text.
pub proof fn lemma_stats_insertion_order(text: Seq<char>, k: int, m1: int, m2: int)
    requires
        0 <= k < agg(text).len(),
        0 <= m1 < m2 < agg(text)[k].blocks.len(),
    ensures
        first_pos(text, agg(text)[k].group, agg(text)[k].blocks[m1].block) < first_pos(
            text,
            agg(text)[k].group,
            agg(text)[k].blocks[m2].block,
        ),
{
    lemma_agg_ordered(text);
}

/// Character `c` classifies to some block of group `g`.
pub open spec fn classifies_to_group(c: char, g: Seq<char>) -> bool {
    match classify(c as u32) {
        Some(i) => spec_table()[i].group == g,
        None => false,
    }
}

/// How many code points of `text` classify to any block of group `g`.
pub open spec fn count_in_group(text: Seq<char>, g: Seq<char>) -> nat
    decreases text.len(),
{
    if text.len() == 0 {
        0
    } else {
        count_in_group(text.drop_last(), g) + if classifies_to_group(text.last(), g) {
            1nat
        } else {
            0nat
        }
    }
}

/// Position of the first code point of `text` that classifies to group `g`;
/// meaningful only when some code point does.
pub open spec fn group_first_pos(text: Seq<char>, g: Seq<char>) -> int
    decreases text.len(),
{
    if text.len() == 0 {
        0
    } else if count_in_group(text.drop_last(), g) > 0 {
        group_first_pos(text.drop_last(), g)
    } else {
        text.len() - 1
    }
}

proof fn lemma_count_in_group_positive_at(text: Seq<char>, g: Seq<char>, p: int)
    requires
        0 <= p < text.len(),
        classifies_to_group(text[p], g),
    ensures
        count_in_group(text, g) >= 1,
    decreases text.len(),
{
    if p == text.len() - 1 {
        assert(text[p] == text.last());
    } else {
        assert(text.drop_last()[p] == text[p]);
        lemma_count_in_group_positive_at(text.drop_last(), g, p);
    }
}

/// What `group_first_pos` returns when group `g` occurs at all: the position
/// of a code point that classifies to `g`, with no earlier one doing so.
pub proof fn lemma_group_first_pos_characterizes(text: Seq<char>, g: Seq<char>)
    requires
        count_in_group(text, g) >= 1,
    ensures
        0 <= group_first_pos(text, g) < text.len(),
        classifies_to_group(text[group_first_pos(text, g)], g),
        forall|p: int|
            0 <= p < group_first_pos(text, g) ==> !classifies_to_group(#[trigger] text[p], g),
    decreases text.len(),
{
    let prev = text.drop_last();
    let fp = group_first_pos(text, g);
    if count_in_group(prev, g) > 0 {
        lemma_group_first_pos_characterizes(prev, g);
        assert(text[fp] == prev[fp]);
        assert forall|p: int| 0 <= p < fp implies !classifies_to_group(#[trigger] text[p], g) by {
            assert(text[p] == prev[p]);
        }
    } else {
        assert(fp == text.len() - 1);
        assert(classifies_to_group(text.last(), g));
        assert forall|p: int| 0 <= p < fp implies !classifies_to_group(#[trigger] text[p], g) by {
            if classifies_to_group(text[p], g) {
                assert(prev[p] == text[p]);
                lemma_count_in_group_positive_at(prev, g, p);
            }
        }
    }
}

/// No block of a group is seen more often than the group itself.
proof fn lemma_count_in_group_dominates(text: Seq<char>, g: Seq<char>, b: Seq<char>)
    ensures
        count_matching(text, g, b) <= count_in_group(text, g),
    decreases text.len(),
{
    if text.len() > 0 {
        lemma_count_in_group_dominates(text.drop_last(), g, b);
    }
}

/// Group entries stand in the order of each group's first occurrence.
pub open spec fn groups_ordered(text: Seq<char>, gs: Seq<SpecGroup>) -> bool {
    forall|k1: int, k2: int|
        0 <= k1 < k2 < gs.len() ==> group_first_pos(text, (#[trigger] gs[k1]).group)
            < group_first_pos(text, (#[trigger] gs[k2]).group)
}

proof fn lemma_group_present(text: Seq<char>)
    ensures
        forall|k: int|
            0 <= k < agg(text).len() ==> count_in_group(text, (#[trigger] agg(text)[k]).group)
                >= 1,
{
    lemma_agg_invariant(text);
    assert forall|k: int| 0 <= k < agg(text).len() implies count_in_group(
        text,
        (#[trigger] agg(text)[k]).group,
    ) >= 1 by {
        assert(agg(text)[k].blocks.len() >= 1);
        let b = agg(text)[k].blocks[0].block;
        lemma_stats_exact_counts(text, k, 0);
        assert(wf_blocks(agg(text)[k].blocks));
        assert(agg(text)[k].blocks[0].counter >= 1);
        lemma_count_in_group_dominates(text, agg(text)[k].group, b);
    }
}

proof fn lemma_agg_groups_ordered(text: Seq<char>)
    ensures
        groups_ordered(text, agg(text)),
    decreases text.len(),
{
    if text.len() == 0 {
    } else {
        let prev = text.drop_last();
        let gs = agg(prev);
        lemma_agg_groups_ordered(prev);
        lemma_agg_invariant(prev);
        lemma_group_present(prev);
        match classify(text.last() as u32) {
            None => {
                assert forall|k1: int, k2: int|
                    0 <= k1 < k2 < agg(text).len() implies group_first_pos(
                    text,
                    (#[trigger] agg(text)[k1]).group,
                ) < group_first_pos(text, (#[trigger] agg(text)[k2]).group) by {
                    assert(count_in_group(prev, gs[k1].group) >= 1);
                    assert(count_in_group(prev, gs[k2].group) >= 1);
                }
            },
            Some(i) => {
                crate::classifier::lemma_classify_first_match(text.last() as u32);
                let g0 = spec_table()[i].group;
                let b0 = spec_table()[i].block;
                let gs2 = agg(text);
                lemma_first_index_characterizes(group_names(gs), g0);
                match group_index(gs, g0) {
                    None => {
                        if count_in_group(prev, g0) >= 1 {
                            lemma_group_first_pos_characterizes(prev, g0);
                            let p = group_first_pos(prev, g0);
                            let ii = classify(prev[p] as u32)->Some_0;
                            let bb = spec_table()[ii].block;
                            assert(classifies_to(prev[p], g0, bb));
                            lemma_count_positive_at(prev, g0, bb, p);
                            assert(count_of(gs, g0, bb) == count_matching(prev, g0, bb));
                            assert(false);
                        }
                        assert(group_first_pos(text, g0) == text.len() - 1);
                        assert forall|k1: int, k2: int|
                            0 <= k1 < k2 < gs2.len() implies group_first_pos(
                            text,
                            (#[trigger] gs2[k1]).group,
                        ) < group_first_pos(text, (#[trigger] gs2[k2]).group) by {
                            assert(gs2[k1] == gs[k1]);
                            assert(count_in_group(prev, gs[k1].group) >= 1);
                            lemma_group_first_pos_characterizes(prev, gs[k1].group);
                            if k2 < gs.len() {
                                assert(gs2[k2] == gs[k2]);
                                assert(count_in_group(prev, gs[k2].group) >= 1);
                                lemma_group_first_pos_characterizes(prev, gs[k2].group);
                            } else {
                                assert(gs2[k2].group == g0);
                            }
                        }
                    },
                    Some(kk) => {
                        assert(gs[kk].group == g0);
                        assert forall|k1: int, k2: int|
                            0 <= k1 < k2 < gs2.len() implies group_first_pos(
                            text,
                            (#[trigger] gs2[k1]).group,
                        ) < group_first_pos(text, (#[trigger] gs2[k2]).group) by {
                            assert(gs2[k1].group == gs[k1].group);
                            assert(gs2[k2].group == gs[k2].group);
                            assert(count_in_group(prev, gs[k1].group) >= 1);
                            assert(count_in_group(prev, gs[k2].group) >= 1);
                            lemma_group_first_pos_characterizes(prev, gs[k1].group);
                            lemma_group_first_pos_characterizes(prev, gs[k2].group);
                        }
                    },
                }
            },
        }
    }
}

/// Insertion order of groups: group entries of the aggregated result appear
/// in the order of each group's first occurrence in the text.
pub proof fn lemma_stats_group_order(text: Seq<char>, k1: int, k2: int)
    requires
        0 <= k1 < k2 < agg(text).len(),
    ensures
        group_first_pos(text, agg(text)[k1].group) < group_first_pos(text, agg(text)[k2].group),
{
    lemma_agg_groups_ordered(text);
}

/// The model of one group's block entries.
pub open spec fn blocks_view(s: Seq<UnicodeStats>) -> Seq<SpecStat> {
    s.map_values(|x: UnicodeStats| x@)
}

/// Finds the entry of group `g` in the result built so far, by first match.
fn find_group(res: &Vec<GroupStats>, g: &String) -> (r: Option<usize>)
    ensures
        match r {
            Some(k) => k < res@.len() && group_index(stats_view(res@), g@) == Some(k as int),
            None => group_index(stats_view(res@), g@) is None,
        },
{
    let ghost names = group_names(stats_view(res@));
    let mut k: usize = 0;
    while k < res.len()
        invariant
            k <= res@.len(),
            names == group_names(stats_view(res@)),
            forall|j: int| 0 <= j < k ==> names[j] != g@,
        decreases res@.len() - k,
    {
        if res[k].group == *g {
            proof {
                assert(names[k as int] == res@[k as int].group@);
                lemma_first_index_witness(names, g@, k as int);
            }
            return Some(k);
        }
        proof {
            assert(names[k as int] == res@[k as int].group@);
        }
        k += 1;
    }
    proof {
        lemma_first_index_none(names, g@);
    }
    None
}

/// Finds the entry of block `b` in one group's entries, by first match.
fn find_block(blocks: &Vec<UnicodeStats>, b: &String) -> (r: Option<usize>)
    ensures
        match r {
            Some(m) => m < blocks@.len() && stat_index(blocks_view(blocks@), b@) == Some(m as int),
            None => stat_index(blocks_view(blocks@), b@) is None,
        },
{
    let ghost names = block_names(blocks_view(blocks@));
    let mut m: usize = 0;
    while m < blocks.len()
        invariant
            m <= blocks@.len(),
            names == block_names(blocks_view(blocks@)),
            forall|j: int| 0 <= j < m ==> names[j] != b@,
        decreases blocks@.len() - m,
    {
        if blocks[m].block == *b {
            proof {
                assert(names[m as int] == blocks@[m as int].block@);
                lemma_first_index_witness(names, b@, m as int);
            }
            return Some(m);
        }
        proof {
            assert(names[m as int] == blocks@[m as int].block@);
        }
        m += 1;
    }
    proof {
        lemma_first_index_none(names, b@);
    }
    None
}

/// Records one classified code point in the running result: find-or-create
/// the group entry, find-or-create the block entry inside it, and raise that
/// block's counter by one.
fn record_stat(res: &mut Vec<GroupStats>, found: UnicodeGroup)
    requires
        counters_le(stats_view(old(res)@), usize::MAX as nat),
    ensures
        stats_view(final(res)@) == record(stats_view(old(res)@), found.group@, found.block@),
{
    let ghost gv = stats_view(res@);
    let ghost g_spec = found.group@;
    let ghost b_spec = found.block@;
    let UnicodeGroup { group, block } = found;
    match find_group(res, &group) {
        None => {
            let mut blocks: Vec<UnicodeStats> = Vec::new();
            blocks.push(UnicodeStats { block, counter: 1 });
            res.push(GroupStats { group, blocks });
            proof {
                assert(stats_view(res@) =~~= record(gv, g_spec, b_spec));
            }
        },
        Some(k) => {
            proof {
                lemma_first_index_characterizes(group_names(gv), g_spec);
            }
            match find_block(&res[k].blocks, &block) {
                None => {
                    res[k].blocks.push(UnicodeStats { block, counter: 1 });
                    proof {
                        assert(stats_view(res@) =~~= record(gv, g_spec, b_spec));
                    }
                },
                Some(m) => {
                    proof {
                        lemma_first_index_characterizes(block_names(gv[k as int].blocks), b_spec);
                        assert(gv[k as int].blocks[m as int].counter <= usize::MAX as nat);
                    }
                    let c: u128 = res[k].blocks[m].counter;
                    res[k].blocks[m].counter = c + 1;
                    proof {
                        assert(stats_view(res@) =~~= record(gv, g_spec, b_spec));
                    }
                },
            }
        },
    }
}

/// Aggregates a whole text: classifies every code point in order and counts
/// each classified one under its group and block, blocks and groups both in
/// first-occurrence order.  An empty text yields an empty result.
pub fn stats(text: &str) -> (res: Vec<GroupStats>)
    ensures
        stats_view(res@) == agg(text@),
{
    let mut res: Vec<GroupStats> = Vec::new();
    let n: usize = text.unicode_len();
    proof {
        assert(text@.take(0) =~= Seq::<char>::empty());
        assert(stats_view(res@) =~= agg(text@.take(0)));
    }
    let mut p: usize = 0;
    while p < n
        invariant
            n == text@.len(),
            p <= n,
            stats_view(res@) == agg(text@.take(p as int)),
        decreases n - p,
    {
        let ch = text.get_char(p);
        let ghost prefix = text@.take(p as int);
        let ghost prefix2 = text@.take(p as int + 1);
        proof {
            assert(prefix2.drop_last() =~= prefix);
            assert(prefix2.last() == text@[p as int]);
            lemma_agg_invariant(prefix);
            assert(prefix.len() == p as int);
            assert forall|k: int, m: int|
                0 <= k < agg(prefix).len() && 0 <= m < agg(prefix)[k].blocks.len() implies (
            #[trigger] agg(prefix)[k].blocks[m].counter) <= usize::MAX as nat by {
                assert(agg(prefix)[k].blocks[m].counter <= p as nat);
            }
        }
        match detect_char(ch) {
            Some(found) => {
                proof {
                    let i = classify(ch as u32)->Some_0;
                    assert(spec_table()[i].group == found.group@);
                    assert(spec_table()[i].block == found.block@);
                }
                record_stat(&mut res, found);
                proof {
                    assert(stats_view(res@) == agg(prefix2));
                }
            },
            None => {
                proof {
                    assert(agg(prefix2) == agg(prefix));
                }
            },
        }
        p += 1;
    }
    proof {
        assert(text@.take(n as int) =~= text@);
    }
    res
}

} // verus!
