use donno::matcher::search_notes;
use donno::note::Note;
use donno::query::{build_search_term, QueryError, QueryTerm, TextField, TimeField};
use donno::timestamp::Timestamp;

fn ts(year: u16, month: u8, day: u8, hour: u8, minute: u8, second: u8) -> Timestamp {
    Timestamp { year, month, day, hour, minute, second }
}

fn note(title: &str, tags: &[&str], notebook: &str, body: &str) -> Note {
    Note {
        title: title.to_string(),
        tags: tags.iter().map(|t| t.to_string()).collect(),
        notebook: notebook.to_string(),
        created: ts(2021, 6, 1, 0, 0, 0),
        updated: ts(2021, 6, 2, 0, 0, 0),
        body: body.to_string(),
        filepath: format!("{}.md", title),
    }
}

#[test]
fn one_segment_searches_all_text() {
    let t = build_search_term("powershell").unwrap();
    assert_eq!(
        t,
        QueryTerm::Text {
            field: TextField::AllText,
            pattern: "powershell".to_string(),
            ignore_case: true,
            whole_word: false,
        }
    );
}

#[test]
fn two_segments_pick_the_field() {
    assert_eq!(
        build_search_term("ti:profile").unwrap(),
        QueryTerm::Text {
            field: TextField::Title,
            pattern: "profile".to_string(),
            ignore_case: true,
            whole_word: false,
        }
    );
    assert!(matches!(
        build_search_term("ta:ps1").unwrap(),
        QueryTerm::Text { field: TextField::Tag, .. }
    ));
    assert!(matches!(
        build_search_term("nb:/Tech").unwrap(),
        QueryTerm::Text { field: TextField::Notebook, .. }
    ));
}

#[test]
fn flag_letters_select_the_text_mode() {
    for (flags, ignore_case, whole_word) in [
        ("w", true, true),
        ("wi", true, true),
        ("iw", true, true),
        ("I", false, false),
        ("IW", false, false),
        ("WI", false, false),
        ("iW", true, false),
        ("Wi", true, false),
        ("i", true, false),
        ("W", true, false),
        ("Iw", false, true),
        ("wI", false, true),
    ] {
        let q = format!("ti:x:{}", flags);
        let t = build_search_term(&q).unwrap();
        assert_eq!(
            t,
            QueryTerm::Text {
                field: TextField::Title,
                pattern: "x".to_string(),
                ignore_case,
                whole_word,
            },
            "flags {:?}",
            flags
        );
    }
}

#[test]
fn time_flags_compile_to_time_terms() {
    assert_eq!(
        build_search_term("cr:2021:B").unwrap(),
        QueryTerm::Time { field: TimeField::Created, moment: ts(2021, 1, 1, 0, 0, 0), before: false }
    );
    assert_eq!(
        build_search_term("up:2022-01-12:b").unwrap(),
        QueryTerm::Time { field: TimeField::Updated, moment: ts(2022, 1, 12, 0, 0, 0), before: true }
    );
}

#[test]
fn unknown_prefix_is_a_syntax_error() {
    assert_eq!(
        build_search_term("xx:y").unwrap_err(),
        QueryError::QuerySyntax { token: "xx".to_string() }
    );
    assert_eq!(
        build_search_term("xx:y:w").unwrap_err(),
        QueryError::QuerySyntax { token: "xx".to_string() }
    );
}

#[test]
fn unreadable_flags_are_a_syntax_error() {
    assert_eq!(
        build_search_term("ti:x:q").unwrap_err(),
        QueryError::QuerySyntax { token: "q".to_string() }
    );
    assert_eq!(
        build_search_term("ti:x:ii").unwrap_err(),
        QueryError::QuerySyntax { token: "ii".to_string() }
    );
    assert_eq!(
        build_search_term("ti:x:").unwrap_err(),
        QueryError::QuerySyntax { token: "".to_string() }
    );
    assert_eq!(
        build_search_term("ti:x:iwW").unwrap_err(),
        QueryError::QuerySyntax { token: "iwW".to_string() }
    );
}

#[test]
fn too_many_segments_are_a_syntax_error() {
    assert_eq!(
        build_search_term("a:b:c:d").unwrap_err(),
        QueryError::QuerySyntax { token: "a:b:c:d".to_string() }
    );
}

#[test]
fn time_flag_on_a_text_field_is_a_mismatch() {
    assert_eq!(
        build_search_term("ti:x:B").unwrap_err(),
        QueryError::FieldFlagMismatch { token: "B".to_string() }
    );
    assert_eq!(
        build_search_term("ta:x:b").unwrap_err(),
        QueryError::FieldFlagMismatch { token: "b".to_string() }
    );
}

#[test]
fn text_mode_on_a_time_field_is_a_mismatch() {
    assert_eq!(
        build_search_term("cr:2021:w").unwrap_err(),
        QueryError::FieldFlagMismatch { token: "w".to_string() }
    );
    assert_eq!(
        build_search_term("cr:2021").unwrap_err(),
        QueryError::FieldFlagMismatch { token: "cr".to_string() }
    );
}

#[test]
fn bad_timestamp_literals_are_reported_first() {
    assert_eq!(
        build_search_term("cr:20").unwrap_err(),
        QueryError::TimestampFormat { token: "20".to_string() }
    );
    assert_eq!(
        build_search_term("up:2021-13:b").unwrap_err(),
        QueryError::TimestampFormat { token: "2021-13".to_string() }
    );
    assert_eq!(
        build_search_term("cr:bad:qq").unwrap_err(),
        QueryError::TimestampFormat { token: "bad".to_string() }
    );
}

#[test]
fn title_substring_match_folds_case() {
    let n = note("Powershell Profile", &["ps1"], "/Tech", "");
    let t = build_search_term("ti:profile").unwrap();
    assert!(n.matches(&t));
}

#[test]
fn whole_word_match_folds_before_tokenising() {
    let n = note("Powershell Profile", &["ps1"], "/Tech", "");
    let t = build_search_term("ti:profile:w").unwrap();
    assert!(n.matches(&t));
    let respect_case = build_search_term("ti:profile:Iw").unwrap();
    assert!(!n.matches(&respect_case));
    let not_a_token = build_search_term("ti:rofile:w").unwrap();
    assert!(!n.matches(&not_a_token));
}

#[test]
fn case_respecting_match_needs_the_exact_case() {
    let n = note("Powershell Profile", &["ps1"], "/Tech", "");
    assert!(n.matches(&build_search_term("ti:PROFILE").unwrap()));
    assert!(!n.matches(&build_search_term("ti:PROFILE:I").unwrap()));
    assert!(n.matches(&build_search_term("ti:Profile:I").unwrap()));
}

#[test]
fn tag_whole_word_matches_a_whole_tag() {
    let n = note("x", &["ps1", "my shell"], "/Tech", "");
    assert!(n.matches(&build_search_term("ta:ps1:w").unwrap()));
    assert!(n.matches(&build_search_term("ta:my shell:w").unwrap()));
    assert!(!n.matches(&build_search_term("ta:shell:w").unwrap()));
    assert!(n.matches(&build_search_term("ta:shell").unwrap()));
}

#[test]
fn created_comparison_uses_the_padded_literal() {
    let n = note("x", &["t"], "/N", "");
    assert!(n.matches(&build_search_term("cr:2021:B").unwrap()));
    assert!(!n.matches(&build_search_term("cr:2021:b").unwrap()));
    assert!(n.matches(&build_search_term("cr:2022:b").unwrap()));
    assert!(!n.matches(&build_search_term("cr:2021-06-01 00:b").unwrap()));
    assert!(n.matches(&build_search_term("up:2021-06-02:B").unwrap()));
}

#[test]
fn all_text_sees_every_field() {
    let n = note("Title Words", &["tag1"], "/Some/Book", "body words");
    assert!(n.matches(&build_search_term("words").unwrap()));
    assert!(n.matches(&build_search_term("tag1").unwrap()));
    assert!(n.matches(&build_search_term("some/book").unwrap()));
    assert!(n.matches(&build_search_term("2021-06-01").unwrap()));
    assert!(!n.matches(&build_search_term("absent").unwrap()));
}

#[test]
fn search_combines_terms_with_and_keeping_order() {
    let a = note("Powershell Profile", &["ps1"], "/Tech", "powershell tips");
    let b = note("Other", &["ps1"], "/Tech", "nothing here");
    let c = note("Powershell Basics", &["txt"], "/Tech", "more powershell");
    let terms = vec![
        build_search_term("powershell").unwrap(),
        build_search_term("ta:ps1:w").unwrap(),
    ];
    let found = search_notes(vec![a.clone(), b, c], &terms);
    assert_eq!(found.len(), 1);
    assert_eq!(found[0].title, a.title);

    let one_term = vec![build_search_term("powershell").unwrap()];
    let found2 = search_notes(
        vec![
            note("Powershell Profile", &["ps1"], "/Tech", "powershell tips"),
            note("Other", &["ps1"], "/Tech", "nothing here"),
            note("Powershell Basics", &["txt"], "/Tech", "more powershell"),
        ],
        &one_term,
    );
    let titles: Vec<&str> = found2.iter().map(|n| n.title.as_str()).collect();
    assert_eq!(titles, ["Powershell Profile", "Powershell Basics"]);
}

#[test]
fn empty_term_list_matches_everything() {
    let n = note("x", &["t"], "/N", "");
    let found = search_notes(vec![n], &Vec::new());
    assert_eq!(found.len(), 1);
}
