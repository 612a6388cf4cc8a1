use riff::git::diff::{
    changes_from_line_ops, compute_changes, normalize_eol, refine_block, utf16_len, Change,
    DiffKind, DiffSpan,
};

/// Sum of changed span on the new (B) side, in UTF-16 units.
fn b_span(changes: &[Change]) -> u32 {
    changes.iter().map(|c| c.to_b - c.from_b).sum()
}

#[test]
fn identical_yields_no_changes() {
    assert!(compute_changes("a\nb\nc\n", "a\nb\nc\n").is_empty());
}

#[test]
fn midfile_insert_only_flags_inserted_line() {
    let ch = compute_changes("a\nb\nc\n", "a\nb\nX\nc\n");
    assert_eq!(ch.len(), 1, "exactly one inserted-line change");
    let c = &ch[0];
    assert_eq!(c.from_a, c.to_a, "insertion: zero width on the old side");
    assert_eq!((c.from_b, c.to_b), (4, 6));
}

#[test]
fn pure_deletion_flags_only_removed() {
    let ch = compute_changes("a\nb\nc\n", "a\nc\n");
    assert_eq!(ch.len(), 1);
    let c = &ch[0];
    assert_eq!(c.from_b, c.to_b, "deletion: zero width on the new side");
    assert_eq!((c.from_a, c.to_a), (2, 4));
}

#[test]
fn modified_line_is_word_level() {
    let ch = compute_changes("foo bar baz\n", "foo qux baz\n");
    assert!(!ch.is_empty());
    let line_len = utf16_len("foo bar baz\n");
    for c in &ch {
        assert!(c.to_b - c.from_b < line_len, "sub-line, not whole line");
        assert!(c.from_b >= 4 && c.to_b <= 7, "within the 'qux' region");
    }
}

#[test]
fn crlf_vs_lf_same_content_no_changes() {
    assert!(compute_changes("a\nb\nc\n", "a\r\nb\r\nc\r\n").is_empty());
}

#[test]
fn lone_cr_normalized() {
    assert!(compute_changes("a\rb\r", "a\nb\n").is_empty());
}

#[test]
fn added_and_deleted_file() {
    let added = compute_changes("", "x\ny\n");
    assert_eq!(added.len(), 1);
    assert_eq!((added[0].from_a, added[0].to_a), (0, 0));
    assert_eq!((added[0].from_b, added[0].to_b), (0, 4));

    let deleted = compute_changes("x\ny\n", "");
    assert_eq!(deleted.len(), 1);
    assert_eq!((deleted[0].from_b, deleted[0].to_b), (0, 0));
    assert_eq!((deleted[0].from_a, deleted[0].to_a), (0, 4));
}

#[test]
fn no_trailing_newline() {
    let ch = compute_changes("a\nb", "a\nb\nc");
    assert!(!ch.is_empty());
    assert!(ch.iter().all(|c| c.from_b >= 2), "line 'a' (0..2) untouched");
}

#[test]
fn offsets_are_valid_invariant() {
    let old = "alpha\nbeta\ngamma\ndelta\n";
    let new = "alpha\nBETA\ngamma\ndelta\nepsilon\n";
    let ch = compute_changes(old, new);
    let max_a = utf16_len(&normalize_eol(old));
    let max_b = utf16_len(&normalize_eol(new));
    for c in &ch {
        assert!(c.from_a <= c.to_a && c.from_b <= c.to_b);
        assert!(c.to_a <= max_a && c.to_b <= max_b);
    }
}

#[test]
fn offsets_in_utf16_units() {
    let old = "𝄞 a\nx\n";
    let new = "𝄞 a\ny\n";
    let ch = compute_changes(old, new);
    assert_eq!(ch.len(), 1);
    assert!(ch[0].from_b >= 5, "offset counts the surrogate pair as 2");
}

#[test]
fn large_dense_does_not_bail() {
    let mut old = String::new();
    let mut new = String::new();
    for i in 0..3000 {
        old.push_str(&format!("fn item_{i}() {{ return {i}; }}\n"));
        if i % 4 == 0 {
            new.push_str(&format!("fn item_{i}() {{ return {i} + 1; }} // edit\n"));
        } else {
            new.push_str(&format!("fn item_{i}() {{ return {i}; }}\n"));
        }
    }
    let ch = compute_changes(&old, &new);
    assert!(ch.len() > 100, "expected many changes, got {}", ch.len());
    let total_b = utf16_len(&new);
    let biggest = ch.iter().map(|c| c.to_b - c.from_b).max().unwrap_or(0);
    assert!(
        biggest < total_b / 2,
        "no single change may span half the file (got {biggest}/{total_b})"
    );
    assert!(b_span(&ch) < total_b / 2, "overall change well under whole-file");
}

// ---- own tests ----

fn span(kind: DiffKind, old_lo: usize, old_hi: usize, new_lo: usize, new_hi: usize) -> DiffSpan {
    DiffSpan { kind, old_lo, old_hi, new_lo, new_hi }
}

#[test]
fn normalize_eol_rewrites_crlf_and_lone_cr() {
    assert_eq!(normalize_eol("a\r\nb\rc\n"), "a\nb\nc\n");
    assert_eq!(normalize_eol("plain\n"), "plain\n");
    assert_eq!(normalize_eol("\r\r\n"), "\n\n");
    assert_eq!(normalize_eol(""), "");
}

#[test]
fn normalize_eol_is_idempotent() {
    let once = normalize_eol("x\r\ny\r\r\nz\r");
    assert_eq!(normalize_eol(&once), once);
}

#[test]
fn utf16_len_counts_surrogate_pairs() {
    assert_eq!(utf16_len(""), 0);
    assert_eq!(utf16_len("abc"), 3);
    assert_eq!(utf16_len("𝄞"), 2);
    assert_eq!(utf16_len("é𝄞x"), 4);
}

#[test]
fn refine_block_offsets_from_the_block_base() {
    // Block "ab𝄞c" vs "aXc" starting at offsets 10 / 20; one replace of
    // chars 1..3 by 1..2 and one trailing equal.
    let ops = [
        span(DiffKind::Equal, 0, 1, 0, 1),
        span(DiffKind::Replace, 1, 3, 1, 2),
        span(DiffKind::Equal, 3, 4, 2, 3),
    ];
    let r = refine_block("ab𝄞c", "aXc", 10, 20, &ops);
    assert_eq!(r, vec![Change { from_a: 11, to_a: 14, from_b: 21, to_b: 22 }]);
}

#[test]
fn refine_block_skips_equal_ops_only() {
    let ops = [span(DiffKind::Delete, 0, 2, 0, 0), span(DiffKind::Insert, 2, 2, 0, 1)];
    let r = refine_block("ab", "c", 0, 0, &ops);
    assert_eq!(
        r,
        vec![
            Change { from_a: 0, to_a: 2, from_b: 0, to_b: 0 },
            Change { from_a: 2, to_a: 2, from_b: 0, to_b: 1 },
        ]
    );
}

#[test]
fn line_ops_delete_and_insert_map_to_line_offsets() {
    let old = "a\nbb\nc\n";
    let new = "a\nc\nddd\n";
    let ops = [
        span(DiffKind::Equal, 0, 1, 0, 1),
        span(DiffKind::Delete, 1, 2, 1, 1),
        span(DiffKind::Equal, 2, 3, 1, 2),
        span(DiffKind::Insert, 3, 3, 2, 3),
    ];
    let r = changes_from_line_ops(old, new, &ops);
    assert_eq!(
        r,
        vec![
            Change { from_a: 2, to_a: 5, from_b: 2, to_b: 2 },
            Change { from_a: 7, to_a: 7, from_b: 4, to_b: 8 },
        ]
    );
}

#[test]
fn large_replaced_block_is_one_line_level_change() {
    let old = format!("keep\n{}\n", "x".repeat(2500));
    let new = format!("keep\n{}\n", "y".repeat(10));
    let ops = [span(DiffKind::Equal, 0, 1, 0, 1), span(DiffKind::Replace, 1, 2, 1, 2)];
    let r = changes_from_line_ops(&old, &new, &ops);
    assert_eq!(r, vec![Change { from_a: 5, to_a: 2506, from_b: 5, to_b: 16 }]);
}

#[test]
fn small_replaced_block_is_refined() {
    let ch = compute_changes("keep\nabc\n", "keep\naXc\n");
    assert!(!ch.is_empty());
    for c in &ch {
        assert!(c.from_a >= 5 && c.to_a <= 9);
        assert!(c.from_b >= 5 && c.to_b <= 9);
        assert!(c.to_b - c.from_b < 4);
    }
}

#[test]
fn changes_are_sorted_and_disjoint() {
    let old = "one two three\nkeep\nfour five\nkeep\nsix\n";
    let new = "one 2 three\nkeep\nfour 5\nkeep\nseven\neight\n";
    let ch = compute_changes(old, new);
    assert!(ch.len() >= 3);
    for w in ch.windows(2) {
        assert!(w[0].to_a <= w[1].from_a && w[0].to_b <= w[1].from_b);
    }
}

/// Replace each change's old range of `old` by its new range of `new`, in
/// UTF-16 units.
fn apply_utf16(old: &str, new: &str, changes: &[Change]) -> Vec<u16> {
    let a: Vec<u16> = old.encode_utf16().collect();
    let b: Vec<u16> = new.encode_utf16().collect();
    let mut out = Vec::new();
    let mut pos = 0usize;
    for c in changes {
        out.extend_from_slice(&a[pos..c.from_a as usize]);
        out.extend_from_slice(&b[c.from_b as usize..c.to_b as usize]);
        pos = c.to_a as usize;
    }
    out.extend_from_slice(&a[pos..]);
    out
}

#[test]
fn applying_changes_rebuilds_the_new_text() {
    let cases = [
        ("a\nb\nc\n", "a\nB\nc\n"),
        ("one two three\nkeep\nfour five\nkeep\nsix\n", "one 2 three\nkeep\nfour 5\nkeep\nseven\neight\n"),
        ("𝄞 a\nx\n", "𝄞 a\ny\n"),
        ("", "fresh\nfile\n"),
        ("gone\n", ""),
        ("a\r\nb\r\n", "a\nc\n"),
        ("no newline", "no newline at all"),
    ];
    for (old, new) in cases {
        let ch = compute_changes(old, new);
        let no = normalize_eol(old);
        let nn = normalize_eol(new);
        let rebuilt = apply_utf16(&no, &nn, &ch);
        let expected: Vec<u16> = nn.encode_utf16().collect();
        assert_eq!(rebuilt, expected, "{old:?} -> {new:?}");
    }
}
