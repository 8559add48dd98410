use codex::DiffReport;
use codex::DiffWords;
use codex::report::DiffRec;
use codex::report::count_words_added;
use codex::report::build_report;

fn rec(path: &str, old_id: &str, new_id: &str, origin: char, content: &str) -> DiffRec {
    DiffRec::new(
        path.to_string(),
        old_id.to_string(),
        new_id.to_string(),
        origin,
        content.to_string(),
    )
}

#[test]
fn counts_words_added_against_nothing() {
    // an empty removal side leaves the edit sequence all additions, so a
    // wrapper that handed its input back unchanged could not produce this
    let recs = vec![rec("1-a/_.md", "x", "y", '+', "three new words\n")];
    assert_eq!(count_words_added(&recs), 3);
}

#[test]
fn counts_only_genuinely_new_words() {
    let recs = vec![
        rec("1-a/_.md", "x", "y", '-', "old words here\n"),
        rec("1-a/_.md", "x", "y", '+', "old words here and more\n"),
    ];
    assert_eq!(count_words_added(&recs), 2);
}

#[test]
fn metadata_files_do_not_count() {
    let recs = vec![
        rec("1-a/meta.toml", "x", "y", '+', "ignored words\n"),
        rec("1-a/_.md", "x", "y", '+', "counted\n"),
    ];
    assert_eq!(count_words_added(&recs), 1);
}

#[test]
fn groups_are_kept_per_file_pair() {
    let recs = vec![
        rec("1-a/_.md", "a", "b", '+', "one\n"),
        rec("2-b/_.md", "c", "d", '+', "two words\n"),
        rec("1-a/_.md", "a", "b", '+', "three\n"),
    ];
    assert_eq!(count_words_added(&recs), 4);
    let mut dw = DiffWords::new();
    for r in recs.iter() {
        dw.insert(r);
    }
    assert_eq!(dw.words.len(), 2);
    assert_eq!(dw.diff_words_added(), 4);
}

#[test]
fn context_lines_change_nothing() {
    let recs = vec![
        rec("1-a/_.md", "a", "b", ' ', "context words\n"),
        rec("1-a/_.md", "a", "b", 'H', "hunk header\n"),
    ];
    assert_eq!(count_words_added(&recs), 0);
}

#[test]
fn report_collects_added_lines_per_file_in_path_order() {
    let recs = vec![
        rec("2-b/_.md", "a", "b", '+', "beta line\n"),
        rec("1-a/_.md", "c", "d", '+', "alpha one\n"),
        rec("1-a/_.md", "c", "d", '+', "alpha two\n"),
        rec("1-a/_.md", "c", "d", '-', "removed\n"),
        rec("3-c/meta.toml", "e", "f", '+', "ignored\n"),
    ];
    let report = build_report(&recs);
    assert_eq!(
        report,
        "/// 1-a/_.md ///\nalpha one\nalpha two\n\n/// 2-b/_.md ///\nbeta line\n".to_string()
    );
}

#[test]
fn report_of_nothing_is_empty() {
    let mut rep = DiffReport::new();
    assert_eq!(rep.report(), "".to_string());
    rep.insert(&rec("1-a/_.md", "a", "b", '-', "removed only\n"));
    assert_eq!(rep.report(), "".to_string());
}
