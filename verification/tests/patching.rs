use message_relay::patch::{apply_hunk, apply_unified_diff, parse_hunk_header, parse_range};
use message_relay::patch::{HunkInfo, PatchError};

fn lines(ls: &[&str]) -> Vec<Vec<u8>> {
    ls.iter().map(|l| l.as_bytes().to_vec()).collect()
}

fn text(r: Result<Vec<u8>, PatchError>) -> String {
    String::from_utf8(r.expect("patch application must succeed")).unwrap()
}

#[test]
fn parse_range_with_comma() {
    assert_eq!(parse_range(b"5,7"), Ok((5, 7)));
    assert_eq!(parse_range(b"0,0"), Ok((0, 0)));
}

#[test]
fn parse_range_without_comma_implies_count_one() {
    assert_eq!(parse_range(b"12"), Ok((12, 1)));
}

#[test]
fn parse_range_rejects_each_malformed_piece() {
    assert_eq!(parse_range(b"x"), Err(PatchError::InvalidLineNumber));
    assert_eq!(parse_range(b""), Err(PatchError::InvalidLineNumber));
    assert_eq!(parse_range(b"a,2"), Err(PatchError::InvalidStartLine));
    assert_eq!(parse_range(b"2,b"), Err(PatchError::InvalidLineCount));
    assert_eq!(parse_range(b",2"), Err(PatchError::InvalidStartLine));
    assert_eq!(parse_range(b"2,"), Err(PatchError::InvalidLineCount));
    // A second comma makes the count piece non-numeric.
    assert_eq!(parse_range(b"1,2,3"), Err(PatchError::InvalidLineCount));
}

#[test]
fn parse_range_rejects_overflow() {
    assert_eq!(
        parse_range(b"99999999999999999999999999"),
        Err(PatchError::InvalidLineNumber)
    );
    assert_eq!(
        parse_range(b"99999999999999999999999999,1"),
        Err(PatchError::InvalidStartLine)
    );
}

#[test]
fn parse_hunk_header_reads_both_ranges() {
    assert_eq!(
        parse_hunk_header(b"@@ -1,5 +2,6 @@"),
        Ok(HunkInfo { old_start: 1, old_count: 5, new_start: 2, new_count: 6 })
    );
    assert_eq!(
        parse_hunk_header(b"@@ -3 +4 @@"),
        Ok(HunkInfo { old_start: 3, old_count: 1, new_start: 4, new_count: 1 })
    );
}

#[test]
fn parse_hunk_header_needs_three_parts() {
    assert_eq!(parse_hunk_header(b"@@"), Err(PatchError::InvalidHunkHeader));
    assert_eq!(parse_hunk_header(b"@@ -1,2"), Err(PatchError::InvalidHunkHeader));
    assert_eq!(parse_hunk_header(b""), Err(PatchError::InvalidHunkHeader));
}

#[test]
fn parse_hunk_header_propagates_range_errors() {
    assert_eq!(parse_hunk_header(b"@@ bad @@"), Err(PatchError::InvalidLineNumber));
    assert_eq!(parse_hunk_header(b"@@ -a,2 +1,2 @@"), Err(PatchError::InvalidStartLine));
    assert_eq!(parse_hunk_header(b"@@ -1,2 +1,c @@"), Err(PatchError::InvalidLineCount));
}

#[test]
fn apply_hunk_adds_and_removes() {
    let info = HunkInfo { old_start: 1, old_count: 1, new_start: 1, new_count: 1 };
    let hunk = lines(&["+d", "-b", " context"]);
    let r = apply_hunk(b"a\nb\nc", &hunk, &info);
    assert_eq!(text(r), "a\nc\nd");
}

#[test]
fn apply_hunk_stops_at_the_next_hunk_marker() {
    let info = HunkInfo { old_start: 1, old_count: 1, new_start: 1, new_count: 1 };
    let hunk = lines(&["+d", "@@ -1 +1 @@", "+ignored"]);
    let r = apply_hunk(b"a", &hunk, &info);
    assert_eq!(text(r), "a\nd");
}

#[test]
fn apply_hunk_removes_only_the_first_match() {
    let info = HunkInfo { old_start: 1, old_count: 1, new_start: 1, new_count: 1 };
    let hunk = lines(&["-x"]);
    let r = apply_hunk(b"x\ny\nx", &hunk, &info);
    assert_eq!(text(r), "y\nx");
}

#[test]
fn apply_hunk_removal_without_match_is_a_noop() {
    let info = HunkInfo { old_start: 1, old_count: 1, new_start: 1, new_count: 1 };
    let hunk = lines(&["-missing"]);
    let r = apply_hunk(b"a\nb", &hunk, &info);
    assert_eq!(text(r), "a\nb");
}

#[test]
fn apply_unified_diff_applies_a_hunk() {
    let diff = b"--- a.txt\n+++ b.txt\n@@ -1,2 +1,2 @@\n-old line\n+new line\n";
    let r = apply_unified_diff(b"old line\nkeep", diff);
    assert_eq!(text(r), "keep\nnew line");
}

#[test]
fn apply_unified_diff_without_hunks_leaves_the_text_alone() {
    let r = apply_unified_diff(b"unchanged\ntext", b"no hunks here\njust words\n");
    assert_eq!(text(r), "unchanged\ntext");
    let r = apply_unified_diff(b"unchanged", b"");
    assert_eq!(text(r), "unchanged");
}

#[test]
fn apply_unified_diff_applies_several_hunks_in_order() {
    let diff = b"@@ -1 +1 @@\n-a\n+b\n@@ -1 +1 @@\n-b\n+c\n";
    let r = apply_unified_diff(b"a", diff);
    assert_eq!(text(r), "c");
}

#[test]
fn apply_unified_diff_reports_a_malformed_header() {
    let diff = b"@@ bad @@\n+x\n";
    assert_eq!(apply_unified_diff(b"a", diff), Err(PatchError::InvalidLineNumber));
    let diff = b"@@ -1,2\n+x\n";
    assert_eq!(apply_unified_diff(b"a", diff), Err(PatchError::InvalidHunkHeader));
}

#[test]
fn apply_unified_diff_strips_carriage_returns() {
    let diff = b"@@ -1 +1 @@\r\n+b\r\n";
    let r = apply_unified_diff(b"a\r\nc\r\n", diff);
    assert_eq!(text(r), "a\nc\nb");
}

#[test]
fn plus_and_minus_file_headers_are_not_changes() {
    // `+++` and `---` lines inside a hunk body are file headers, not changes.
    let info = HunkInfo { old_start: 1, old_count: 1, new_start: 1, new_count: 1 };
    let hunk = lines(&["+++ b.txt", "--- a.txt", "+real"]);
    let r = apply_hunk(b"a", &hunk, &info);
    assert_eq!(text(r), "a\nreal");
}

#[test]
fn patch_error_messages() {
    assert_eq!(PatchError::InvalidHunkHeader.message(), "Invalid hunk header");
    assert_eq!(PatchError::InvalidStartLine.message(), "Invalid start line number");
    assert_eq!(PatchError::InvalidLineCount.message(), "Invalid line count");
    assert_eq!(PatchError::InvalidLineNumber.message(), "Invalid line number");
}
