use brass::decimal::{format_number, parse_number};
use brass::diff::{compute_diff, DiffOp};
use brass::merge::{format_merged_chunks, three_way_line_merge, MergeChunk};
use brass::paths::{components_of, join_all, join_paths, normal_path, same_path, strip_base};
use brass::status::diff_texts;
use brass::text::{leading_word, split_fields, split_lines, split_once, strip_suffixes, trimmed};

fn keep(s: &str) -> DiffOp {
    DiffOp::Keep(s.to_string())
}

fn insert(s: &str) -> DiffOp {
    DiffOp::Insert(s.to_string())
}

fn delete(s: &str) -> DiffOp {
    DiffOp::Delete(s.to_string())
}

fn strings(parts: &[&str]) -> Vec<String> {
    parts.iter().map(|s| s.to_string()).collect()
}

#[test]
fn lines_of_a_text() {
    assert_eq!(split_lines(""), strings(&[]));
    assert_eq!(split_lines("a\r\n\nb\rc\n"), strings(&["a", "", "b\rc"]));
    assert_eq!(split_lines("a\nb\r"), strings(&["a", "b\r"]));
}

#[test]
fn white_space_is_trimmed() {
    assert_eq!(trimmed(" \u{a0}\u{2003}\tx y\r\n\u{3000}"), "x y");
    assert_eq!(trimmed("\u{200b}x"), "\u{200b}x");
    assert_eq!(trimmed(" \n "), "");
}

#[test]
fn words_fields_and_affixes() {
    assert_eq!(leading_word("  blob 12"), Some("blob".to_string()));
    assert_eq!(leading_word(" \t"), None);
    assert_eq!(split_fields("a\t\tb", '\t'), strings(&["a", "", "b"]));
    assert_eq!(split_once("a <b <c", " <"), Some(("a".to_string(), "b <c".to_string())));
    assert_eq!(split_once("ab", " <"), None);
    assert_eq!(strip_suffixes("a/**/**", "/**"), "a");
}

#[test]
fn numbers_in_decimal() {
    assert_eq!(format_number(0), "0");
    assert_eq!(format_number(u64::MAX), "18446744073709551615");
    assert_eq!(parse_number("18446744073709551615", u64::MAX), Some(u64::MAX));
    assert_eq!(parse_number("18446744073709551616", u64::MAX), None);
    assert_eq!(parse_number("+007", 7), Some(7));
    assert_eq!(parse_number("8", 7), None);
    assert_eq!(parse_number("", 7), None);
    assert_eq!(parse_number("+", 7), None);
    assert_eq!(parse_number("-1", 7), None);
    assert_eq!(parse_number("1 ", 7), None);
}

#[test]
fn paths_are_joined() {
    assert_eq!(join_paths("a", "b"), "a/b");
    assert_eq!(join_paths("a/", "b"), "a/b");
    assert_eq!(join_paths("", "b"), "b");
    assert_eq!(join_paths("a", "/b"), "/b");
    assert_eq!(join_paths("a", ""), "a/");
    assert_eq!(join_all("a", "b", "c"), "a/b/c");
}

#[test]
fn paths_are_compared_by_components() {
    assert!(same_path("a//b/./c/", "a/b/c"));
    assert!(!same_path("./a", "a"));
    assert!(!same_path("/a", "a"));
    assert!(same_path("", ""));
    assert_eq!(components_of("/a/../b"), strings(&["/", "a", "..", "b"]));
    assert_eq!(components_of("./a/."), strings(&[".", "a"]));
}

#[test]
fn paths_below_a_base() {
    assert_eq!(strip_base("/r/.b/refs/heads/x", "/r/.b"), Some("refs/heads/x".to_string()));
    assert_eq!(strip_base("/r//.b/./refs//x/", "/r/.b/"), Some("refs//x".to_string()));
    assert_eq!(strip_base("/r/.bb/x", "/r/.b"), None);
    assert_eq!(strip_base("r/x", "/r"), None);
    assert_eq!(strip_base("/r", "/r"), Some(String::new()));
}

#[test]
fn normal_forms_of_paths() {
    for (path, form) in [
        ("/a//b/./c/", "/a/b/c"),
        ("//", "/"),
        ("a/./b", "a/b"),
        ("./a", "./a"),
        (".", "."),
        ("", ""),
        ("a/../b", "a/../b"),
    ] {
        assert_eq!(normal_path(path), form);
        assert!(same_path(path, form));
    }
}

#[test]
fn nothing_is_stripped_behind_an_empty_base() {
    for (path, rest) in [
        ("/a", "/a"),
        ("//a/./b/", "//a/./b"),
        ("a/b/.", "a/b"),
        ("./a", "./a"),
        ("./", "."),
        (".", "."),
        ("/.", "/"),
        ("//", "/"),
        ("", ""),
    ] {
        assert_eq!(strip_base(path, ""), Some(rest.to_string()));
        let std_rest = std::path::Path::new(path).strip_prefix("").unwrap();
        assert_eq!(std_rest.to_str(), Some(rest));
        assert!(same_path(path, rest));
    }
}

#[test]
fn diff_keeps_common_lines() {
    assert_eq!(
        compute_diff("a\nb\nc\n", "a\nx\nc\nd\n"),
        vec![keep("a"), delete("b"), insert("x"), keep("c"), insert("d")]
    );
}

#[test]
fn diff_of_empty_texts() {
    assert_eq!(compute_diff("", ""), vec![]);
    assert_eq!(compute_diff("", "a\n"), vec![insert("a")]);
    assert_eq!(compute_diff("a", ""), vec![delete("a")]);
}

#[test]
fn diff_of_moved_lines() {
    assert_eq!(
        compute_diff("a\nb\n", "b\na\n"),
        vec![delete("a"), keep("b"), insert("a")]
    );
}

#[test]
fn diff_ignores_line_ends() {
    assert_eq!(compute_diff("a\r\nb", "a\nb\n"), vec![keep("a"), keep("b")]);
}

#[test]
fn diff_report_of_a_file() {
    assert_eq!(
        diff_texts("f.txt", Some("a\nc\n"), "a\nb\n"),
        "--- a/f.txt\n+++ b/f.txt\n a\n-b\n+c\n"
    );
    assert_eq!(diff_texts("f.txt", Some("a\n"), "a"), "");
    assert_eq!(diff_texts("f.txt", None, "a"), "Deleted: f.txt\n");
}

#[test]
fn merge_takes_the_side_that_changed() {
    assert_eq!(
        three_way_line_merge("a\n", "a\n", "a\nb\n"),
        vec![MergeChunk::Clean(strings(&["a", "b"]))]
    );
    assert_eq!(
        three_way_line_merge("a\n", "x\n", "a\n"),
        vec![MergeChunk::Clean(strings(&["x"]))]
    );
}

#[test]
fn merge_of_equal_changes() {
    assert_eq!(
        three_way_line_merge("a\n", "x\ny\n", "x\ny"),
        vec![MergeChunk::Clean(strings(&["x", "y"]))]
    );
}

#[test]
fn merge_of_different_changes_conflicts() {
    let chunks = three_way_line_merge("a\nb\nc\n", "a\nX\nc\n", "a\nY\nc\n");
    assert_eq!(
        chunks,
        vec![
            MergeChunk::Clean(strings(&["a"])),
            MergeChunk::Conflict { target: strings(&["X", "c"]), leaf: strings(&["Y", "c"]) },
        ]
    );
    let (conflict, text) = format_merged_chunks(&chunks, "liść");
    assert!(conflict);
    assert_eq!(
        text,
        "a\n<<<<<<< TARGET\nX\nc\n=======\nY\nc\n>>>>>>> LEAF (liść)\n"
    );
}

#[test]
fn merge_resumes_at_the_next_line_of_the_leaf() {
    assert_eq!(
        three_way_line_merge("z\n", "p\nq\na\n", "a\nb\n"),
        vec![
            MergeChunk::Conflict { target: strings(&["p", "q"]), leaf: strings(&[]) },
            MergeChunk::Clean(strings(&["a"])),
            MergeChunk::Conflict { target: strings(&[]), leaf: strings(&["b"]) },
        ]
    );
}

#[test]
fn clean_chunks_as_text() {
    let (conflict, text) = format_merged_chunks(&vec![MergeChunk::Clean(strings(&["a", ""]))], "l");
    assert!(!conflict);
    assert_eq!(text, "a\n\n");
}
