use donno::cache::{decode_cache, resolve_in_text, IndexCache, ResolveError};
use donno::codec::{encode_note, DecodeError};
use donno::config::Config;
use donno::note::Note;
use donno::store::{first_n, load_notes, note_file_name, notebook_list, NoteFile};
use donno::timestamp::Timestamp;

fn ts(year: u16, month: u8, day: u8, hour: u8, minute: u8, second: u8) -> Timestamp {
    Timestamp { year, month, day, hour, minute, second }
}

fn note_text(title: &str, notebook: &str, updated: Timestamp) -> String {
    encode_note(&Note {
        title: title.to_string(),
        tags: vec!["t".to_string()],
        notebook: notebook.to_string(),
        created: ts(2021, 1, 1, 0, 0, 0),
        updated,
        body: String::new(),
        filepath: String::new(),
    })
}

fn files() -> Vec<NoteFile> {
    vec![
        NoteFile { path: "a.md".to_string(), text: note_text("A", "/N1", ts(2021, 5, 1, 0, 0, 0)) },
        NoteFile { path: "b.md".to_string(), text: note_text("B", "/N2", ts(2021, 7, 1, 0, 0, 0)) },
        NoteFile { path: "c.md".to_string(), text: note_text("C", "/N1", ts(2021, 6, 1, 0, 0, 0)) },
    ]
}

#[test]
fn load_sorts_by_updated_descending() {
    let (notes, failures) = load_notes(files());
    assert!(failures.is_empty());
    let titles: Vec<&str> = notes.iter().map(|n| n.title.as_str()).collect();
    assert_eq!(titles, ["B", "C", "A"]);
    assert_eq!(notes[0].filepath, "b.md");
}

#[test]
fn load_keeps_enumeration_order_on_equal_updated() {
    let same = ts(2021, 6, 1, 12, 0, 0);
    let fs = vec![
        NoteFile { path: "x.md".to_string(), text: note_text("X", "/N", same) },
        NoteFile { path: "late.md".to_string(), text: note_text("L", "/N", ts(2021, 8, 1, 0, 0, 0)) },
        NoteFile { path: "y.md".to_string(), text: note_text("Y", "/N", same) },
        NoteFile { path: "z.md".to_string(), text: note_text("Z", "/N", same) },
    ];
    let (notes, _) = load_notes(fs);
    let titles: Vec<&str> = notes.iter().map(|n| n.title.as_str()).collect();
    assert_eq!(titles, ["L", "X", "Y", "Z"]);
}

#[test]
fn load_skips_and_reports_bad_files() {
    let mut fs = files();
    fs.insert(1, NoteFile { path: "bad.md".to_string(), text: "not a note".to_string() });
    let (notes, failures) = load_notes(fs);
    assert_eq!(notes.len(), 3);
    assert_eq!(failures.len(), 1);
    assert_eq!(failures[0].path, "bad.md");
    assert_eq!(failures[0].error, DecodeError::MissingHeader);
}

#[test]
fn load_twice_yields_identical_sequences() {
    let (first, _) = load_notes(files());
    let (second, _) = load_notes(files());
    assert_eq!(first, second);
}

#[test]
fn first_n_takes_the_newest() {
    let (notes, _) = load_notes(files());
    let top = first_n(notes, 2);
    let titles: Vec<&str> = top.iter().map(|n| n.title.as_str()).collect();
    assert_eq!(titles, ["B", "C"]);
}

#[test]
fn notebook_list_is_sorted_and_distinct() {
    let (notes, _) = load_notes(files());
    let nbs = notebook_list(&notes);
    assert_eq!(nbs, ["/N1".to_string(), "/N2".to_string()]);
}

#[test]
fn note_file_name_uses_the_compact_stamp() {
    assert_eq!(note_file_name(&ts(2021, 6, 1, 12, 30, 45)), "note210601123045.md");
    assert_eq!(note_file_name(&ts(2005, 1, 2, 3, 4, 5)), "note050102030405.md");
}

#[test]
fn cache_resolves_by_rebuild_order() {
    let (notes, _) = load_notes(files());
    let cache = IndexCache::rebuild(&notes);
    assert_eq!(cache.resolve(1).unwrap(), "b.md");
    assert_eq!(cache.resolve(2).unwrap(), "c.md");
    assert_eq!(cache.resolve(3).unwrap(), "a.md");
    assert_eq!(cache.resolve(4).unwrap_err(), ResolveError::IndexOutOfRange);
    assert_eq!(cache.resolve(0).unwrap_err(), ResolveError::IndexOutOfRange);
}

#[test]
fn cache_text_round_trips_awkward_paths() {
    let cache = IndexCache {
        paths: vec![
            "plain.md".to_string(),
            "with:colon and 7 digits.md".to_string(),
            "päth/здесь.md".to_string(),
            "holds\na newline".to_string(),
            String::new(),
        ],
    };
    let text = cache.encode();
    let back = decode_cache(&text).unwrap();
    assert_eq!(back.paths, cache.paths);
}

#[test]
fn cache_of_no_entries_is_empty_text() {
    let cache = IndexCache { paths: Vec::new() };
    assert_eq!(cache.encode(), "");
    assert_eq!(decode_cache("").unwrap().paths, Vec::<String>::new());
}

#[test]
fn unreadable_cache_text_is_stale() {
    assert_eq!(decode_cache("junk").unwrap_err(), ResolveError::StaleIndex);
    assert_eq!(decode_cache("5:ab").unwrap_err(), ResolveError::StaleIndex);
    assert_eq!(decode_cache(":ab").unwrap_err(), ResolveError::StaleIndex);
    assert_eq!(decode_cache("2:abc").unwrap_err(), ResolveError::StaleIndex);
    assert_eq!(decode_cache("99999999999999999999999:x").unwrap_err(), ResolveError::StaleIndex);
}

#[test]
fn resolve_in_text_tells_the_errors_apart() {
    let cache = IndexCache { paths: vec!["one.md".to_string(), "two.md".to_string()] };
    let text = cache.encode();
    assert_eq!(resolve_in_text(&text, 2).unwrap(), "two.md");
    assert_eq!(resolve_in_text(&text, 3).unwrap_err(), ResolveError::IndexOutOfRange);
    assert_eq!(resolve_in_text("garbage", 1).unwrap_err(), ResolveError::StaleIndex);
}

#[test]
fn config_fields_are_read_and_set_by_key() {
    let conf = Config::default_config("/home/u/.donno/".to_string());
    assert_eq!(conf.get_field("default_notebook").unwrap(), "/Misc");
    assert_eq!(conf.get_field("editor").unwrap(), "nvim");
    assert_eq!(conf.get_field("viewer").unwrap(), "nvim -R");
    assert_eq!(conf.get_field("app_home").unwrap(), "/home/u/.donno/");
    assert_eq!(conf.get_field("nonsense"), None);

    let (conf2, changed) = conf.with_setting("editor", "vi".to_string());
    assert!(changed);
    assert_eq!(conf2.editor, "vi");
    assert_eq!(conf2.default_notebook, "/Misc");
    let (conf3, changed3) = conf2.with_setting("nope", "x".to_string());
    assert!(!changed3);
    assert_eq!(conf3.editor, "vi");
}
