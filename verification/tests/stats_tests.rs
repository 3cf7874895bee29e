use unicode_char_group::stats;

fn percent(counter: u128, total: usize) -> f32 {
    (counter as f32 / total as f32) * 100.0
}

fn close(a: f32, b: f32) -> bool {
    (a - b).abs() < 1e-4
}

#[test]
fn single_basic_latin_character() {
    let text = "A";
    let res = stats(text);
    assert_eq!(res.len(), 1);
    assert_eq!(res[0].group, "Latin");
    assert_eq!(res[0].blocks.len(), 1);
    assert_eq!(res[0].blocks[0].block, "Basic Latin");
    assert_eq!(res[0].blocks[0].counter, 1);
    assert!(close(percent(res[0].blocks[0].counter, text.chars().count()), 100.0));
}

#[test]
fn empty_text_gives_empty_result() {
    let res = stats("");
    assert!(res.is_empty());
}

#[test]
fn mixed_text_with_unclassified_symbols() {
    // 2 Basic Latin letters, 3 CJK Unified Ideographs, 5 unclassified Greek
    // letters: 10 code points in all.
    let text = "ab\u{738b}\u{4f55}\u{5fc5}\u{3b1}\u{3b2}\u{3b3}\u{3b4}\u{3b5}";
    let total = text.chars().count();
    assert_eq!(total, 10);
    let res = stats(text);
    assert_eq!(res.len(), 2);
    assert_eq!(res[0].group, "Latin");
    assert_eq!(res[0].blocks.len(), 1);
    assert_eq!(res[0].blocks[0].block, "Basic Latin");
    assert_eq!(res[0].blocks[0].counter, 2);
    assert!(close(percent(res[0].blocks[0].counter, total), 20.0));
    assert_eq!(res[1].group, "CJK");
    assert_eq!(res[1].blocks.len(), 1);
    assert_eq!(res[1].blocks[0].block, "CJK Unified Ideographs");
    assert_eq!(res[1].blocks[0].counter, 3);
    assert!(close(percent(res[1].blocks[0].counter, total), 30.0));
    // The 5 unclassified characters count towards no entry: 50% in all.
    let sum: u128 = res.iter().flat_map(|g| g.blocks.iter()).map(|b| b.counter).sum();
    assert_eq!(sum, 5);
}

#[test]
fn counters_sum_below_total_iff_something_unclassified() {
    // Every character classified: the counters sum to the length.
    let all_classified = "a\u{42f}\u{4e2d}";
    let res = stats(all_classified);
    let sum: u128 = res.iter().flat_map(|g| g.blocks.iter()).map(|b| b.counter).sum();
    assert_eq!(sum, all_classified.chars().count() as u128);

    // One unclassified character: the sum falls short by one.
    let one_out = "a\u{42f}\u{4e2d}\u{3b1}";
    let res = stats(one_out);
    let sum: u128 = res.iter().flat_map(|g| g.blocks.iter()).map(|b| b.counter).sum();
    assert_eq!(sum, one_out.chars().count() as u128 - 1);
}

#[test]
fn blocks_and_groups_in_first_occurrence_order() {
    // 'a' (Basic Latin), 'é' (Latin-1 Supplement), '中' (CJK), 'b' (Basic
    // Latin again): groups and blocks must keep first-seen order.
    let text = "a\u{e9}\u{4e2d}b";
    let res = stats(text);
    assert_eq!(res.len(), 2);
    assert_eq!(res[0].group, "Latin");
    assert_eq!(res[1].group, "CJK");
    assert_eq!(res[0].blocks.len(), 2);
    assert_eq!(res[0].blocks[0].block, "Basic Latin");
    assert_eq!(res[0].blocks[0].counter, 2);
    assert_eq!(res[0].blocks[1].block, "Latin-1 Supplement");
    assert_eq!(res[0].blocks[1].counter, 1);
    assert_eq!(res[1].blocks[0].block, "CJK Unified Ideographs");
    assert_eq!(res[1].blocks[0].counter, 1);
}

#[test]
fn repeated_runs_agree() {
    let text = "Being wise and good \u{738b}\u{4f55} \u{42f}\u{440}";
    let first = stats(text);
    let second = stats(text);
    assert_eq!(first.len(), second.len());
    for (g1, g2) in first.iter().zip(second.iter()) {
        assert_eq!(g1.group, g2.group);
        assert_eq!(g1.blocks.len(), g2.blocks.len());
        for (b1, b2) in g1.blocks.iter().zip(g2.blocks.iter()) {
            assert_eq!(b1.block, b2.block);
            assert_eq!(b1.counter, b2.counter);
        }
    }
}

#[test]
fn cyrillic_counting() {
    let text = "\u{42f}\u{440}\u{500}";
    let res = stats(text);
    assert_eq!(res.len(), 1);
    assert_eq!(res[0].group, "Cyrillic");
    assert_eq!(res[0].blocks.len(), 2);
    assert_eq!(res[0].blocks[0].block, "Cyrillic");
    assert_eq!(res[0].blocks[0].counter, 2);
    assert_eq!(res[0].blocks[1].block, "Cyrillic Supplement");
    assert_eq!(res[0].blocks[1].counter, 1);
    assert!(close(percent(res[0].blocks[0].counter, text.chars().count()), 66.66667));
}
