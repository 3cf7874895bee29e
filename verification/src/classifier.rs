//! Classification of a single code point against the block table.
//!
//! The table is scanned in declaration order and the first range containing
//! the code point wins; a code point outside every range is unclassified,
//! which is a normal outcome, not an error.

use vstd::prelude::*;

verus! {

use crate::table::{block_table, spec_table, SpecRange};

/// One classification result: the coarse script group and the specific block.
pub struct UnicodeGroup {
    pub group: String,
    pub block: String,
}

/// Entry `i` of the table covers code point `code`.
pub open spec fn in_range(code: u32, i: int) -> bool {
    spec_table()[i].lo <= code && code <= spec_table()[i].hi
}

/// Index of the first table entry at or after `i` that covers `code`.
pub open spec fn classify_from(code: u32, i: int) -> Option<int>
    decreases spec_table().len() - i,
{
    if i < 0 || i >= spec_table().len() {
        None
    } else if in_range(code, i) {
        Some(i)
    } else {
        classify_from(code, i + 1)
    }
}

/// Index of the first table entry that covers `code`, scanning the whole
/// table in declaration order; `None` when no declared range covers it.
pub open spec fn classify(code: u32) -> Option<int> {
    classify_from(code, 0)
}

/// The (group, block) name pair that classification assigns to `code`.
pub open spec fn detect_spec(code: u32) -> Option<(Seq<char>, Seq<char>)> {
    match classify(code) {
        Some(i) => Some((spec_table()[i].group, spec_table()[i].block)),
        None => None,
    }
}

proof fn lemma_classify_from_characterizes(code: u32, i: int)
    requires
        0 <= i <= spec_table().len(),
    ensures
        match classify_from(code, i) {
            Some(k) => i <= k < spec_table().len() && in_range(code, k) && (forall|j: int|
                i <= j < k ==> !in_range(code, j)),
            None => forall|j: int| i <= j < spec_table().len() ==> !in_range(code, j),
        },
    decreases spec_table().len() - i,
{
    if i < spec_table().len() && !in_range(code, i) {
        lemma_classify_from_characterizes(code, i + 1);
    }
}

/// First-match semantics of classification: a classified code point is
/// covered by the returned entry and by no earlier entry, and an
/// unclassified code point is covered by no entry at all.
pub proof fn lemma_classify_first_match(code: u32)
    ensures
        match classify(code) {
            Some(k) => 0 <= k < spec_table().len() && in_range(code, k) && (forall|j: int|
                0 <= j < k ==> !in_range(code, j)),
            None => forall|j: int| 0 <= j < spec_table().len() ==> !in_range(code, j),
        },
{
    lemma_classify_from_characterizes(code, 0);
}

/// Conversely, the entry that covers a code point with no earlier covering
/// entry is exactly the one classification returns.
pub proof fn lemma_classify_complete(code: u32, k: int)
    requires
        0 <= k < spec_table().len(),
        in_range(code, k),
        forall|j: int| 0 <= j < k ==> !in_range(code, j),
    ensures
        classify(code) == Some(k),
{
    lemma_classify_first_match(code);
    match classify(code) {
        Some(k2) => {
            if k2 < k {
                assert(in_range(code, k2));
            } else if k < k2 {
                assert(!in_range(code, k));
            }
        },
        None => {
            assert(!in_range(code, k));
        },
    }
}

/// A code point outside every declared range gets no classification.
pub proof fn lemma_unmatched_unclassified(code: u32)
    requires
        forall|j: int| 0 <= j < spec_table().len() ==> !in_range(code, j),
    ensures
        classify(code) is None,
{
    lemma_classify_first_match(code);
    if classify(code) is Some {
        let k = classify(code)->Some_0;
        assert(!in_range(code, k));
    }
}

/// Classifies one character: the group and block of the first table range
/// that contains its code point, or `None` when no range does.
pub fn detect_char(ch: char) -> (r: Option<UnicodeGroup>)
    ensures
        match r {
            Some(g) => detect_spec(ch as u32) == Some((g.group@, g.block@)),
            None => detect_spec(ch as u32) is None,
        },
{
    let code = ch as u32;
    let table = block_table();
    let mut i: usize = 0;
    while i < table.len()
        invariant
            i <= table@.len(),
            table@.len() == spec_table().len(),
            forall|j: int| 0 <= j < table@.len() ==> #[trigger] table@[j]@ == spec_table()[j],
            code == ch as u32,
            forall|j: int| 0 <= j < i ==> !in_range(code, j),
        decreases table@.len() - i,
    {
        let entry = &table[i];
        if entry.start <= code && code <= entry.end {
            proof {
                assert(table@[i as int]@ == spec_table()[i as int]);
                lemma_classify_complete(code, i as int);
            }
            return Some(UnicodeGroup { group: entry.group.clone(), block: entry.block.clone() });
        }
        proof {
            assert(table@[i as int]@ == spec_table()[i as int]);
            assert(!in_range(code, i as int));
        }
        i += 1;
    }
    proof {
        lemma_unmatched_unclassified(code);
    }
    None
}

} // verus!
