use donno::codec::{encode_note, parse_note, DecodeError};
use donno::note::Note;
use donno::timestamp::{format_compact, format_date, format_ts, parse_datetime, parse_ts, Timestamp};

fn ts(year: u16, month: u8, day: u8, hour: u8, minute: u8, second: u8) -> Timestamp {
    Timestamp { year, month, day, hour, minute, second }
}

fn sample_note() -> Note {
    Note {
        title: "Powershell Profile".to_string(),
        tags: vec!["ps1".to_string(), "shell".to_string()],
        notebook: "/Tech/Public".to_string(),
        created: ts(2021, 6, 1, 0, 0, 0),
        updated: ts(2021, 6, 2, 3, 4, 5),
        body: "line one\n\nline three".to_string(),
        filepath: "/home/u/.donno/repo/note210601000000.md".to_string(),
    }
}

#[test]
fn encode_writes_exact_text() {
    let text = encode_note(&sample_note());
    assert_eq!(
        text,
        "Title: Powershell Profile\n\
         Tags: ps1; shell\n\
         Notebook: /Tech/Public\n\
         Created: 2021-06-01 00:00:00\n\
         Updated: 2021-06-02 03:04:05\n\
         \n\
         ------\n\
         \n\
         line one\n\nline three"
    );
}

#[test]
fn decode_restores_every_field() {
    let n = sample_note();
    let text = encode_note(&n);
    let back = parse_note(&text, "elsewhere.md".to_string()).unwrap();
    assert_eq!(back.title, n.title);
    assert_eq!(back.tags, n.tags);
    assert_eq!(back.notebook, n.notebook);
    assert_eq!(back.created, n.created);
    assert_eq!(back.updated, n.updated);
    assert_eq!(back.body, n.body);
    assert_eq!(back.filepath, "elsewhere.md");
}

#[test]
fn round_trip_keeps_empty_body_and_unicode() {
    let mut n = sample_note();
    n.title = "Grüße aus Зеленоград".to_string();
    n.body = String::new();
    let back = parse_note(&encode_note(&n), n.filepath.clone()).unwrap();
    assert_eq!(back.title, n.title);
    assert_eq!(back.body, "");
}

#[test]
fn round_trip_keeps_trailing_newlines_of_body() {
    let mut n = sample_note();
    n.body = "ends with blank line\n\n".to_string();
    let back = parse_note(&encode_note(&n), n.filepath.clone()).unwrap();
    assert_eq!(back.body, n.body);
}

#[test]
fn reencoding_a_decoded_file_reproduces_it() {
    let text = encode_note(&sample_note());
    let back = parse_note(&text, "p.md".to_string()).unwrap();
    assert_eq!(encode_note(&back), text);
}

#[test]
fn reencoding_keeps_header_lines_of_lax_files() {
    let lax = "Title: x\nTags: a; b\nNotebook: /N\nCreated: 2021-06-01 00:00:00\nUpdated: 2021-06-01 00:00:00\nstray\nstray\nstray\nbody";
    let back = parse_note(lax, "p.md".to_string()).unwrap();
    assert_eq!(back.body, "body");
    let redone = encode_note(&back);
    let expected_headers: Vec<&str> = lax.lines().take(5).collect();
    let redone_headers: Vec<&str> = redone.lines().take(5).collect();
    assert_eq!(redone_headers, expected_headers);
}

#[test]
fn decode_rejects_short_input() {
    let r = parse_note("Title: x\nTags: y", "p".to_string());
    assert_eq!(r.unwrap_err(), DecodeError::MissingHeader);
}

#[test]
fn decode_rejects_wrong_label() {
    let text = "Title: x\nTagz: y\nNotebook: /N\nCreated: 2021-06-01 00:00:00\nUpdated: 2021-06-01 00:00:00\n\n------\n\n";
    let r = parse_note(text, "p".to_string());
    assert_eq!(r.unwrap_err(), DecodeError::BadLabel { line: 1 });
}

#[test]
fn decode_rejects_bad_timestamp() {
    let text = "Title: x\nTags: y\nNotebook: /N\nCreated: 2021-13-01 00:00:00\nUpdated: 2021-06-01 00:00:00\n\n------\n\n";
    let r = parse_note(text, "p".to_string());
    assert_eq!(r.unwrap_err(), DecodeError::BadTimestamp { line: 3 });
    let text2 = "Title: x\nTags: y\nNotebook: /N\nCreated: 2021-06-01 00:00:00\nUpdated: junk\n\n------\n\n";
    let r2 = parse_note(text2, "p".to_string());
    assert_eq!(r2.unwrap_err(), DecodeError::BadTimestamp { line: 4 });
}

#[test]
fn parse_ts_reads_exact_form_only() {
    assert_eq!(parse_ts("2021-06-01 12:30:45"), Some(ts(2021, 6, 1, 12, 30, 45)));
    assert_eq!(parse_ts("2021-06-01T12:30:45"), None);
    assert_eq!(parse_ts("2021-6-1 12:30:45"), None);
    assert_eq!(parse_ts("2021-06-01 24:00:00"), None);
    assert_eq!(parse_ts("2021-04-31 00:00:00"), None);
}

#[test]
fn parse_ts_knows_leap_years() {
    assert_eq!(parse_ts("2024-02-29 00:00:00"), Some(ts(2024, 2, 29, 0, 0, 0)));
    assert_eq!(parse_ts("2023-02-29 00:00:00"), None);
    assert_eq!(parse_ts("1900-02-29 00:00:00"), None);
    assert_eq!(parse_ts("2000-02-29 00:00:00"), Some(ts(2000, 2, 29, 0, 0, 0)));
}

#[test]
fn parse_datetime_pads_partial_literals() {
    assert_eq!(parse_datetime("2021"), Some(ts(2021, 1, 1, 0, 0, 0)));
    assert_eq!(parse_datetime("2021-06"), Some(ts(2021, 6, 1, 0, 0, 0)));
    assert_eq!(parse_datetime("2021-06-03"), Some(ts(2021, 6, 3, 0, 0, 0)));
    assert_eq!(parse_datetime("2021-06-03 07"), Some(ts(2021, 6, 3, 7, 0, 0)));
    assert_eq!(parse_datetime("2021-06-03 07:08"), Some(ts(2021, 6, 3, 7, 8, 0)));
    assert_eq!(parse_datetime("2021-06-03 07:08:09"), Some(ts(2021, 6, 3, 7, 8, 9)));
}

#[test]
fn parse_datetime_rejects_other_lengths_and_bad_fields() {
    assert_eq!(parse_datetime("202"), None);
    assert_eq!(parse_datetime("2021-0"), None);
    assert_eq!(parse_datetime("2021-06-03 07:08:09x"), None);
    assert_eq!(parse_datetime("2021-14"), None);
    assert_eq!(parse_datetime("abcd"), None);
}

#[test]
fn formatting_zero_pads_every_field() {
    let t = ts(987, 6, 1, 2, 3, 4);
    assert_eq!(format_ts(&t), "0987-06-01 02:03:04");
    assert_eq!(format_date(&t), "0987-06-01");
    assert_eq!(format_compact(&t), "870601020304");
    assert_eq!(parse_ts(&format_ts(&t)), Some(t));
}

#[test]
fn timestamps_compare_chronologically() {
    let a = ts(2021, 6, 1, 0, 0, 0);
    let b = ts(2021, 6, 1, 0, 0, 1);
    let c = ts(2022, 1, 1, 0, 0, 0);
    assert!(a.lt(&b));
    assert!(b.lt(&c));
    assert!(!c.lt(&a));
    assert!(c.ge(&b));
    assert!(a.ge(&a));
}

#[test]
fn display_line_formats_the_listing_row() {
    let n = sample_note();
    assert_eq!(
        n.display_line(),
        "2021-06-02 /Tech/Public: Powershell Profile 2021-06-01 [ps1; shell]"
    );
}

#[test]
fn with_updated_touches_only_updated() {
    let n = sample_note();
    let t = ts(2030, 1, 2, 3, 4, 5);
    let m = n.clone().with_updated(t);
    assert_eq!(m.updated, t);
    assert_eq!(m.title, n.title);
    assert_eq!(m.tags, n.tags);
    assert_eq!(m.notebook, n.notebook);
    assert_eq!(m.created, n.created);
    assert_eq!(m.body, n.body);
    assert_eq!(m.filepath, n.filepath);
}
