use std::collections::HashMap;

use zhang::broadcast::{BroadcastEvent, Broadcaster};
use zhang::directive::{Directive, DirectiveBody, LedgerDate};
use zhang::loader::{decode_content, LoadError, Loader, ParsedFile};
use zhang::locator::{normalize, resolve_include, Locator, PathError};
use zhang::request::{BudgetListRequest, JournalRequest};
use zhang::storage::{
    backend_config, dialect_of, read_result, BackendConfig, ConfigError, DataSource, Dialect, MissingSetting,
    ReadOutcome, StorageSettings,
};
use zhang::writer::{append_text, plan_append};

fn loc(p: &str) -> Locator {
    normalize(&Locator::root(), p).unwrap()
}

fn entry(text: &str) -> Directive {
    Directive { date: None, body: DirectiveBody::Entry(text.to_string()) }
}

fn dated(text: &str, y: u32, m: u32, d: u32) -> Directive {
    Directive { date: Some(LedgerDate::new(y, m, d).unwrap()), body: DirectiveBody::Entry(text.to_string()) }
}

fn inc(p: &str) -> Directive {
    Directive::inclusion(p.to_string())
}

/// Reads each line of a file as a directive: inclusions by their quoted path, the rest as entries.
fn parse_lines(text: &str) -> Vec<Directive> {
    let prefix = format!("{}{}", "inc", "lude \"");
    text.lines()
        .filter(|l| !l.trim().is_empty())
        .map(|l| match l.strip_prefix(prefix.as_str()) {
            Some(rest) => inc(rest.trim_end_matches('"')),
            None => entry(l),
        })
        .collect()
}

/// Runs a whole load over files held in memory; a missing file reads as empty.
fn load_all(files: &HashMap<String, Vec<Directive>>, main: &str) -> Result<(Vec<Directive>, Vec<String>), LoadError> {
    let mut loader = Loader::new("/ledger", main)?;
    let mut steps = 0;
    while let Some(f) = loader.next_file() {
        steps += 1;
        assert!(steps < 100, "load does not terminate");
        let ds = files.get(&f.render()).cloned().unwrap_or_default();
        loader.complete(&f, ds)?;
    }
    let r = loader.finish();
    Ok((r.directives, r.visited_files.iter().map(|l| l.render()).collect()))
}

#[test]
fn normalize_drops_dots_and_parents() {
    assert_eq!(loc("a/./b/../c.zhang").render(), "a/c.zhang");
    assert_eq!(loc("a//b/").segments, vec!["a".to_string(), "b".to_string()]);
    assert_eq!(normalize(&Locator::root(), "../x.zhang").unwrap_err(), PathError::EscapesRoot);
}

#[test]
fn relative_include_is_read_from_the_containing_directory() {
    let e = loc("/ledger");
    let r = resolve_include(&e, &loc("books/2024/main.zhang"), "../common.zhang").unwrap();
    assert_eq!(r.render(), "books/common.zhang");
    let r = resolve_include(&e, &loc("books/main.zhang"), "2024.zhang").unwrap();
    assert_eq!(r.render(), "books/2024.zhang");
}

#[test]
fn absolute_include_must_lie_under_the_entry() {
    let e = loc("/home/u/ledger");
    let r = resolve_include(&e, &loc("main.zhang"), "/home/u/ledger/x/y.zhang").unwrap();
    assert_eq!(r.render(), "x/y.zhang");
    let r = resolve_include(&e, &loc("main.zhang"), "/home/other/y.zhang");
    assert_eq!(r.unwrap_err(), PathError::OutsideEntry);
    let r = resolve_include(&e, &loc("main.zhang"), "../../y.zhang");
    assert_eq!(r.unwrap_err(), PathError::EscapesRoot);
}

#[test]
fn cyclic_includes_visit_each_file_once() {
    let mut files = HashMap::new();
    files.insert("a.zhang".to_string(), vec![inc("b.zhang"), entry("A")]);
    files.insert("b.zhang".to_string(), vec![inc("a.zhang"), entry("B")]);
    let (ds, visited) = load_all(&files, "a.zhang").unwrap();
    assert_eq!(visited, vec!["a.zhang".to_string(), "b.zhang".to_string()]);
    assert_eq!(ds, vec![inc("b.zhang"), entry("A"), inc("a.zhang"), entry("B")]);
}

#[test]
fn self_include_terminates() {
    let mut files = HashMap::new();
    files.insert("main.zhang".to_string(), vec![inc("main.zhang"), inc("./main.zhang")]);
    let (ds, visited) = load_all(&files, "main.zhang").unwrap();
    assert_eq!(visited, vec!["main.zhang".to_string()]);
    assert_eq!(ds.len(), 2);
}

#[test]
fn files_are_loaded_breadth_first() {
    let mut files = HashMap::new();
    files.insert("main.zhang".to_string(), vec![inc("a/a.zhang"), inc("b.zhang"), entry("M")]);
    files.insert("a/a.zhang".to_string(), vec![inc("c.zhang"), entry("A")]);
    files.insert("b.zhang".to_string(), vec![entry("B")]);
    files.insert("a/c.zhang".to_string(), vec![entry("C")]);
    let (ds, visited) = load_all(&files, "main.zhang").unwrap();
    assert_eq!(visited, vec!["main.zhang", "a/a.zhang", "b.zhang", "a/c.zhang"]);
    let texts: Vec<Directive> = ds.into_iter().filter(|d| d.include_target().is_none()).collect();
    assert_eq!(texts, vec![entry("M"), entry("A"), entry("B"), entry("C")]);
}

#[test]
fn repeated_loads_give_the_same_stream() {
    let mut files = HashMap::new();
    files.insert("main.zhang".to_string(), vec![inc("x.zhang"), entry("1"), inc("y.zhang")]);
    files.insert("x.zhang".to_string(), vec![entry("2"), inc("y.zhang")]);
    files.insert("y.zhang".to_string(), vec![entry("3"), inc("main.zhang")]);
    let first = load_all(&files, "main.zhang").unwrap();
    let second = load_all(&files, "main.zhang").unwrap();
    assert_eq!(first, second);
    assert_eq!(first.1, vec!["main.zhang", "x.zhang", "y.zhang"]);
}

#[test]
fn unresolvable_include_aborts_the_load() {
    let mut files = HashMap::new();
    files.insert("main.zhang".to_string(), vec![entry("1"), inc("../outside.zhang")]);
    assert_eq!(load_all(&files, "main.zhang").unwrap_err(), LoadError::Path(PathError::EscapesRoot));
}

#[test]
fn root_file_outside_the_entry_is_refused() {
    assert_eq!(Loader::new("/ledger", "/elsewhere/main.zhang").unwrap_err(), LoadError::Path(PathError::OutsideEntry));
    assert!(Loader::new("/ledger", "/ledger/main.zhang").is_ok());
}

#[test]
fn missing_object_reads_as_empty() {
    assert_eq!(read_result(ReadOutcome::NotFound).unwrap(), Vec::<u8>::new());
    assert_eq!(read_result(ReadOutcome::Found(vec![1, 2])).unwrap(), vec![1, 2]);
    assert_eq!(read_result(ReadOutcome::Failed("denied".to_string())).unwrap_err().message, "denied");
}

#[test]
fn content_that_is_not_utf8_is_refused() {
    assert_eq!(decode_content(vec![0xff, 0xfe]).unwrap_err(), LoadError::Decode);
    assert_eq!(decode_content("caf\u{e9}".as_bytes().to_vec()).unwrap(), "caf\u{e9}");
}

#[test]
fn dated_append_creates_month_file_and_its_inclusion() {
    let main = loc("main.zhang");
    let mut files: HashMap<String, String> = HashMap::new();
    files.insert("main.zhang".to_string(), "2024-03-15 open Assets:Cash".to_string());
    let parsed: HashMap<String, Vec<Directive>> =
        files.iter().map(|(k, v)| (k.clone(), parse_lines(v))).collect();
    let mut loader = Loader::new("/ledger", "main.zhang").unwrap();
    while let Some(f) = loader.next_file() {
        loader.complete(&f, parsed.get(&f.render()).cloned().unwrap_or_default()).unwrap();
    }
    let visited = loader.finish().visited_files;

    let txn = dated("2024-03-15 * \"Lunch\"", 2024, 3, 15);
    let plan = plan_append(&main, &visited, &txn, None);
    assert_eq!(plan.create_dir.unwrap().render(), "data/2024");
    assert_eq!(plan.writes.len(), 2);
    assert_eq!(plan.writes[0].file.render(), "main.zhang");
    assert_eq!(plan.writes[0].text, format!("{}{}", "inc", "lude \"data/2024/03.zhang\""));
    assert_eq!(plan.writes[1].file.render(), "data/2024/03.zhang");
    assert_eq!(plan.writes[1].text, "2024-03-15 * \"Lunch\"");
    for w in &plan.writes {
        let path = w.file.render();
        let old = files.get(&path).cloned().unwrap_or_default();
        files.insert(path, append_text(&old, &w.text));
    }

    let parsed: HashMap<String, Vec<Directive>> =
        files.iter().map(|(k, v)| (k.clone(), parse_lines(v))).collect();
    let (ds, visited) = load_all(&parsed, "main.zhang").unwrap();
    assert_eq!(visited, vec!["main.zhang", "data/2024/03.zhang"]);
    assert_eq!(
        ds,
        vec![entry("2024-03-15 open Assets:Cash"), inc("data/2024/03.zhang"), entry("2024-03-15 * \"Lunch\"")]
    );
}

#[test]
fn appends_in_one_month_share_a_file() {
    let main = loc("main.zhang");
    let visited = vec![loc("main.zhang"), loc("data/2024/03.zhang")];
    let a = plan_append(&main, &visited, &dated("a", 2024, 3, 1), None);
    let b = plan_append(&main, &visited, &dated("b", 2024, 3, 31), None);
    assert_eq!(a.writes.len(), 1);
    assert_eq!(b.writes.len(), 1);
    assert_eq!(a.writes[0].file.render(), "data/2024/03.zhang");
    assert_eq!(b.writes[0].file.render(), "data/2024/03.zhang");
}

#[test]
fn undated_append_goes_to_the_root_file() {
    let main = loc("main.zhang");
    let plan = plan_append(&main, &vec![loc("main.zhang")], &entry("option \"x\" \"y\""), None);
    assert!(plan.create_dir.is_none());
    assert_eq!(plan.writes.len(), 1);
    assert_eq!(plan.writes[0].file.render(), "main.zhang");
}

#[test]
fn explicit_target_wins_over_the_date() {
    let main = loc("books/main.zhang");
    let plan = plan_append(&main, &vec![loc("books/main.zhang")], &dated("t", 2023, 12, 1), Some(loc("other/x.zhang")));
    assert!(plan.create_dir.is_none());
    assert_eq!(plan.writes.len(), 2);
    assert_eq!(plan.writes[0].file.render(), "books/main.zhang");
    assert_eq!(plan.writes[0].text, format!("{}{}", "inc", "lude \"../other/x.zhang\""));
    assert_eq!(plan.writes[1].file.render(), "other/x.zhang");
}

#[test]
fn appended_text_has_separating_line_breaks() {
    assert_eq!(append_text("a", "b"), "a\nb\n");
    assert_eq!(append_text("", "b"), "\nb\n");
}

#[test]
fn dates_are_checked() {
    assert!(LedgerDate::new(2024, 2, 29).is_some());
    assert!(LedgerDate::new(2023, 2, 29).is_none());
    assert!(LedgerDate::new(2024, 13, 1).is_none());
    assert!(LedgerDate::new(10000, 1, 1).is_none());
    let d = dated("x", 987, 1, 2);
    let plan = plan_append(&loc("main.zhang"), &vec![], &d, None);
    assert_eq!(plan.writes[1].file.render(), "data/0987/01.zhang");
}

#[test]
fn new_listener_gets_connected_and_a_fresh_id() {
    let mut b = Broadcaster::create();
    let (a, ev) = b.new_client();
    assert_eq!(ev, BroadcastEvent::Connected);
    let snapshot = b.broadcast(BroadcastEvent::Reload);
    let (c, _) = b.new_client();
    assert_ne!(a, c);
    assert_eq!(snapshot, vec![a]);
    assert!(!snapshot.contains(&c));
    assert_eq!(b.broadcast(BroadcastEvent::Reload), vec![a, c]);
}

#[test]
fn sweep_drops_only_failed_listeners() {
    let mut b = Broadcaster::create();
    let ids: Vec<u64> = (0..4).map(|_| b.new_client().0).collect();
    b.remove_stale_clients(&vec![ids[1], ids[3]]);
    assert_eq!(b.broadcast(BroadcastEvent::Reload), vec![ids[0], ids[2]]);
    b.remove_stale_clients(&vec![]);
    assert_eq!(b.broadcast(BroadcastEvent::Reload), vec![ids[0], ids[2]]);
}

#[test]
fn events_serialize_with_their_type() {
    assert_eq!(BroadcastEvent::Reload.to_data(), "{\"type\":\"Reload\"}");
    assert_eq!(BroadcastEvent::Connected.to_data(), "{\"type\":\"Connected\"}");
}

#[test]
fn dialect_follows_the_root_extension() {
    assert_eq!(dialect_of("main.zhang").unwrap(), Dialect::Zhang);
    assert_eq!(dialect_of("books/main.bean").unwrap(), Dialect::Beancount);
    assert_eq!(dialect_of("a.b/main.bc").unwrap(), Dialect::Beancount);
    assert_eq!(dialect_of("main.txt").unwrap_err(), ConfigError::UnsupportedExtension);
    assert_eq!(dialect_of(".zhang").unwrap_err(), ConfigError::UnsupportedExtension);
    assert_eq!(dialect_of("a.zhang/main").unwrap_err(), ConfigError::UnsupportedExtension);
}

fn settings(source: DataSource) -> StorageSettings {
    StorageSettings {
        source,
        path: "/data".to_string(),
        webdav_endpoint: Some("https://dav".to_string()),
        webdav_root: Some("/books".to_string()),
        webdav_username: Some("u".to_string()),
        webdav_password: Some("p".to_string()),
    }
}

#[test]
fn backend_settings_are_validated() {
    match backend_config(settings(DataSource::Fs)).unwrap() {
        BackendConfig::Local { root } => assert_eq!(root, "/data"),
        other => panic!("unexpected {:?}", other),
    }
    match backend_config(settings(DataSource::WebDav)).unwrap() {
        BackendConfig::WebDav { endpoint, root, username, password } => {
            assert_eq!((endpoint.as_str(), root.as_str(), username.as_str(), password.as_str()), ("https://dav", "/books", "u", "p"));
        }
        other => panic!("unexpected {:?}", other),
    }
    let mut s = settings(DataSource::WebDav);
    s.webdav_root = None;
    assert_eq!(backend_config(s).unwrap_err(), ConfigError::Missing(MissingSetting::WebDavRoot));
    let mut s = settings(DataSource::WebDav);
    s.webdav_password = None;
    assert_eq!(backend_config(s).unwrap_err(), ConfigError::Missing(MissingSetting::WebDavPassword));
}

#[test]
fn journal_paging() {
    let r = JournalRequest { page: None, size: None, keyword: None, tags: None, links: None };
    assert_eq!((r.page(), r.limit(), r.offset()), (1, 100, 0));
    let r = JournalRequest { page: Some(0), size: Some(20), keyword: None, tags: None, links: None };
    assert_eq!((r.page(), r.limit(), r.offset()), (1, 20, 0));
    let r = JournalRequest { page: Some(3), size: Some(20), keyword: None, tags: None, links: None };
    assert_eq!((r.page(), r.limit(), r.offset()), (3, 20, 40));
}

#[test]
fn budget_interval() {
    let r = BudgetListRequest { month: Some(4), year: None };
    assert_eq!(r.as_interval_from(2024, 7), 202404);
    let r = BudgetListRequest { month: None, year: Some(2020) };
    assert_eq!(r.as_interval_from(2024, 7), 202007);
}

fn parsed(file: &str, directives: Vec<Directive>) -> ParsedFile {
    ParsedFile { file: loc(file), directives }
}

#[test]
fn in_memory_load_survives_a_cycle() {
    let files = vec![
        parsed("a.zhang", vec![entry("A"), inc("sub/b.zhang")]),
        parsed("sub/b.zhang", vec![entry("B"), inc("../a.zhang")]),
    ];
    let r = Loader::load_parsed("/ledger", "a.zhang", &files).unwrap();
    let visited: Vec<String> = r.visited_files.iter().map(|l| l.render()).collect();
    assert_eq!(visited, vec!["a.zhang", "sub/b.zhang"]);
    assert_eq!(r.directives, vec![entry("A"), inc("sub/b.zhang"), entry("B"), inc("../a.zhang")]);
    let again = Loader::load_parsed("/ledger", "a.zhang", &files).unwrap();
    assert_eq!(again.directives, r.directives);
}

#[test]
fn in_memory_load_reads_missing_files_as_empty() {
    let files = vec![parsed("main.zhang", vec![inc("gone.zhang"), entry("M")])];
    let r = Loader::load_parsed("/ledger", "main.zhang", &files).unwrap();
    let visited: Vec<String> = r.visited_files.iter().map(|l| l.render()).collect();
    assert_eq!(visited, vec!["main.zhang", "gone.zhang"]);
    assert_eq!(r.directives.len(), 2);
}

#[test]
fn in_memory_load_fails_on_an_escaping_include() {
    let files = vec![
        parsed("main.zhang", vec![inc("x.zhang")]),
        parsed("x.zhang", vec![inc("/other/y.zhang")]),
    ];
    let r = Loader::load_parsed("/ledger", "main.zhang", &files);
    assert_eq!(r.unwrap_err(), LoadError::Path(PathError::OutsideEntry));
}
