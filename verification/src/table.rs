//! The block table: an ordered list of code-point ranges, each tagged with a
//! coarse script-group name and a specific Unicode block name.
//!
//! The table is pure data.  Lookup order is significant: classification scans
//! it front to back and the first matching range wins, so the table must be
//! produced in exactly the declared order.

use vstd::prelude::*;

verus! {

use vstd::string::StringExecFns;

/// Mathematical model of one table entry: group and block names as character
/// sequences, and the inclusive code-point bounds.
#[verifier::ext_equal]
pub struct SpecRange {
    pub group: Seq<char>,
    pub block: Seq<char>,
    pub lo: u32,
    pub hi: u32,
}

/// The canonical table, in declaration order.
///
/// One entry ("CJK Unified Ideographs Extension F") appears twice with an
/// identical range; the repeat is kept as declared because first-match lookup
/// makes it a harmless no-op, and dropping it would change the table that
/// callers can observe.
pub open spec fn spec_table() -> Seq<SpecRange> {
    seq![
        SpecRange { group: "Latin"@, block: "Basic Latin"@, lo: 0x0000, hi: 0x007f },
        SpecRange { group: "Latin"@, block: "Latin-1 Supplement"@, lo: 0x0080, hi: 0x00ff },
        SpecRange { group: "Latin"@, block: "Latin Extended-A"@, lo: 0x0100, hi: 0x017f },
        SpecRange { group: "Latin"@, block: "Latin Extended-B"@, lo: 0x0180, hi: 0x024f },
        SpecRange { group: "Latin"@, block: "Latin Extended Additional"@, lo: 0x1e00, hi: 0x1eff },
        SpecRange { group: "Latin"@, block: "Latin Extended-C"@, lo: 0x2c60, hi: 0x2c7f },
        SpecRange { group: "Latin"@, block: "Latin Extended-D"@, lo: 0xa720, hi: 0xa7ff },
        SpecRange { group: "Latin"@, block: "Latin Extended-E"@, lo: 0xab30, hi: 0xab6f },
        SpecRange { group: "Cyrillic"@, block: "Cyrillic"@, lo: 0x0400, hi: 0x04ff },
        SpecRange { group: "Cyrillic"@, block: "Cyrillic Supplement"@, lo: 0x0500, hi: 0x052f },
        SpecRange { group: "Cyrillic"@, block: "Cyrillic Extended-C"@, lo: 0x1c80, hi: 0x1c8f },
        SpecRange { group: "Cyrillic"@, block: "Cyrillic Extended-A"@, lo: 0x2de0, hi: 0x2dff },
        SpecRange { group: "Cyrillic"@, block: "Cyrillic Extended-B"@, lo: 0xa640, hi: 0xa69f },
        SpecRange { group: "CJK"@, block: "CJK Radicals Supplement"@, lo: 0x2e80, hi: 0x2eff },
        SpecRange { group: "CJK"@, block: "CJK Symbols and Punctuation"@, lo: 0x3000, hi: 0x303f },
        SpecRange { group: "CJK"@, block: "CJK Strokes"@, lo: 0x31c0, hi: 0x31ef },
        SpecRange { group: "CJK"@, block: "Enclosed CJK Letters and Months"@, lo: 0x3200, hi: 0x32ff },
        SpecRange { group: "CJK"@, block: "CJK Compatibility"@, lo: 0x3300, hi: 0x33ff },
        SpecRange { group: "CJK"@, block: "CJK Unified Ideographs Extension A"@, lo: 0x3400, hi: 0x4dbf },
        SpecRange { group: "CJK"@, block: "CJK Unified Ideographs"@, lo: 0x4e00, hi: 0x9fff },
        SpecRange { group: "CJK"@, block: "CJK Compatibility Forms"@, lo: 0xfe30, hi: 0xfe4f },
        SpecRange { group: "CJK"@, block: "CJK Unified Ideographs Extension B"@, lo: 0x20000, hi: 0x2a6df },
        SpecRange { group: "CJK"@, block: "CJK Unified Ideographs Extension C"@, lo: 0x2a700, hi: 0x2b73f },
        SpecRange { group: "CJK"@, block: "CJK Unified Ideographs Extension D"@, lo: 0x2b740, hi: 0x2b81f },
        SpecRange { group: "CJK"@, block: "CJK Unified Ideographs Extension E"@, lo: 0x2b820, hi: 0x2ceaf },
        SpecRange { group: "CJK"@, block: "CJK Unified Ideographs Extension F"@, lo: 0x2ceb0, hi: 0x2ebef },
        SpecRange { group: "CJK"@, block: "CJK Unified Ideographs Extension F"@, lo: 0x2ceb0, hi: 0x2ebef },
        SpecRange { group: "CJK"@, block: "CJK Compatibility Ideographs Supplement"@, lo: 0x2f800, hi: 0x2fa1f },
        SpecRange { group: "CJK"@, block: "CJK Unified Ideographs Extension G"@, lo: 0x30000, hi: 0x3134f },
    ]
}

/// One executable table entry.
pub struct BlockRange {
    pub group: String,
    pub block: String,
    pub start: u32,
    pub end: u32,
}

impl View for BlockRange {
    type V = SpecRange;

    open spec fn view(&self) -> SpecRange {
        SpecRange { group: self.group@, block: self.block@, lo: self.start, hi: self.end }
    }
}

/// Builds the executable table.  Its contents are exactly `spec_table()`,
/// entry for entry and in the same order.
#[verifier::rlimit(30)]
pub fn block_table() -> (t: Vec<BlockRange>)
    ensures
        t@.len() == spec_table().len(),
        forall|i: int| 0 <= i < t@.len() ==> #[trigger] t@[i]@ == spec_table()[i],
{
    let mut t: Vec<BlockRange> = Vec::new();
    t.push(BlockRange { group: String::from_str("Latin"), block: String::from_str("Basic Latin"), start: 0x0000, end: 0x007f });
    t.push(BlockRange { group: String::from_str("Latin"), block: String::from_str("Latin-1 Supplement"), start: 0x0080, end: 0x00ff });
    t.push(BlockRange { group: String::from_str("Latin"), block: String::from_str("Latin Extended-A"), start: 0x0100, end: 0x017f });
    t.push(BlockRange { group: String::from_str("Latin"), block: String::from_str("Latin Extended-B"), start: 0x0180, end: 0x024f });
    t.push(BlockRange { group: String::from_str("Latin"), block: String::from_str("Latin Extended Additional"), start: 0x1e00, end: 0x1eff });
    t.push(BlockRange { group: String::from_str("Latin"), block: String::from_str("Latin Extended-C"), start: 0x2c60, end: 0x2c7f });
    t.push(BlockRange { group: String::from_str("Latin"), block: String::from_str("Latin Extended-D"), start: 0xa720, end: 0xa7ff });
    t.push(BlockRange { group: String::from_str("Latin"), block: String::from_str("Latin Extended-E"), start: 0xab30, end: 0xab6f });
    t.push(BlockRange { group: String::from_str("Cyrillic"), block: String::from_str("Cyrillic"), start: 0x0400, end: 0x04ff });
    t.push(BlockRange { group: String::from_str("Cyrillic"), block: String::from_str("Cyrillic Supplement"), start: 0x0500, end: 0x052f });
    t.push(BlockRange { group: String::from_str("Cyrillic"), block: String::from_str("Cyrillic Extended-C"), start: 0x1c80, end: 0x1c8f });
    t.push(BlockRange { group: String::from_str("Cyrillic"), block: String::from_str("Cyrillic Extended-A"), start: 0x2de0, end: 0x2dff });
    t.push(BlockRange { group: String::from_str("Cyrillic"), block: String::from_str("Cyrillic Extended-B"), start: 0xa640, end: 0xa69f });
    t.push(BlockRange { group: String::from_str("CJK"), block: String::from_str("CJK Radicals Supplement"), start: 0x2e80, end: 0x2eff });
    t.push(BlockRange { group: String::from_str("CJK"), block: String::from_str("CJK Symbols and Punctuation"), start: 0x3000, end: 0x303f });
    t.push(BlockRange { group: String::from_str("CJK"), block: String::from_str("CJK Strokes"), start: 0x31c0, end: 0x31ef });
    t.push(BlockRange { group: String::from_str("CJK"), block: String::from_str("Enclosed CJK Letters and Months"), start: 0x3200, end: 0x32ff });
    t.push(BlockRange { group: String::from_str("CJK"), block: String::from_str("CJK Compatibility"), start: 0x3300, end: 0x33ff });
    t.push(BlockRange { group: String::from_str("CJK"), block: String::from_str("CJK Unified Ideographs Extension A"), start: 0x3400, end: 0x4dbf });
    t.push(BlockRange { group: String::from_str("CJK"), block: String::from_str("CJK Unified Ideographs"), start: 0x4e00, end: 0x9fff });
    t.push(BlockRange { group: String::from_str("CJK"), block: String::from_str("CJK Compatibility Forms"), start: 0xfe30, end: 0xfe4f });
    t.push(BlockRange { group: String::from_str("CJK"), block: String::from_str("CJK Unified Ideographs Extension B"), start: 0x20000, end: 0x2a6df });
    t.push(BlockRange { group: String::from_str("CJK"), block: String::from_str("CJK Unified Ideographs Extension C"), start: 0x2a700, end: 0x2b73f });
    t.push(BlockRange { group: String::from_str("CJK"), block: String::from_str("CJK Unified Ideographs Extension D"), start: 0x2b740, end: 0x2b81f });
    t.push(BlockRange { group: String::from_str("CJK"), block: String::from_str("CJK Unified Ideographs Extension E"), start: 0x2b820, end: 0x2ceaf });
    t.push(BlockRange { group: String::from_str("CJK"), block: String::from_str("CJK Unified Ideographs Extension F"), start: 0x2ceb0, end: 0x2ebef });
    t.push(BlockRange { group: String::from_str("CJK"), block: String::from_str("CJK Unified Ideographs Extension F"), start: 0x2ceb0, end: 0x2ebef });
    t.push(BlockRange { group: String::from_str("CJK"), block: String::from_str("CJK Compatibility Ideographs Supplement"), start: 0x2f800, end: 0x2fa1f });
    t.push(BlockRange { group: String::from_str("CJK"), block: String::from_str("CJK Unified Ideographs Extension G"), start: 0x30000, end: 0x3134f });
    t
}

} // verus!
