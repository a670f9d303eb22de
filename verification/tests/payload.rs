use passman::vault::payload::{
    apply_update, check_decoded, id_from_bytes, unix_seconds, format_id, generate_id, now_unix, Entry, EntryBody, EntryType,
    EntryUpdate, LoginData, NoteData, Payload, MAX_ENTRIES, MAX_TAGS, PAYLOAD_SPEC_VERSION,
};
use passman::Error;

fn login(id: &str, title: &str, tags: &[&str]) -> Entry {
    Entry {
        id: id.to_string(),
        title: title.to_string(),
        tags: tags.iter().map(|t| t.to_string()).collect(),
        created_at: 10,
        updated_at: 10,
        body: EntryBody::Login(LoginData {
            username: "octocat".to_string(),
            password: "s3cret".to_string(),
            url: "https://github.com".to_string(),
        }),
    }
}

fn note(id: &str, title: &str) -> Entry {
    Entry {
        id: id.to_string(),
        title: title.to_string(),
        tags: Vec::new(),
        created_at: 5,
        updated_at: 5,
        body: EntryBody::Note(NoteData { body: "eggs".to_string() }),
    }
}

fn no_update() -> EntryUpdate {
    EntryUpdate { title: None, username: None, password: None, url: None, body: None, tags: None }
}

#[test]
fn entry_type_from_u8_rejects_unknown() {
    assert_eq!(EntryType::from_u8(1), Ok(EntryType::Login));
    assert_eq!(EntryType::from_u8(2), Ok(EntryType::Note));
    assert!(EntryType::from_u8(0).is_err());
    assert!(EntryType::from_u8(9).is_err());
}

#[test]
fn id_has_v4_bits() {
    let id = generate_id().unwrap();
    assert_eq!(id.len(), 36);
    assert_eq!(&id[14..15], "4");
    assert!(matches!(&id[19..20], "8" | "9" | "a" | "b"));
    assert_eq!(id.bytes().filter(|c| *c == b'-').count(), 4);
}

#[test]
fn entry_type_codes_and_labels() {
    assert_eq!(EntryType::Login.to_u8(), 1);
    assert_eq!(EntryType::Note.to_u8(), 2);
    assert_eq!(EntryType::Login.label(), "login");
    assert_eq!(EntryType::Note.label(), "note");
}

#[test]
fn format_id_groups_hex_digits() {
    let b: [u8; 16] = [0x00, 0x11, 0x22, 0x33, 0x44, 0x55, 0x46, 0x77, 0x88, 0x99, 0xaa, 0xbb, 0xcc, 0xdd, 0xee, 0xff];
    assert_eq!(format_id(&b), "00112233-4455-4677-8899-aabbccddeeff");
}

#[test]
fn ids_differ() {
    assert_ne!(generate_id().unwrap(), generate_id().unwrap());
}

#[test]
fn now_is_after_2020() {
    assert!(now_unix() > 1_577_836_800);
}

#[test]
fn new_payload_is_empty() {
    let p = Payload::new();
    assert_eq!(p.spec_version, PAYLOAD_SPEC_VERSION);
    assert!(p.entries.is_empty());
    let d = Payload::default();
    assert_eq!(d.spec_version, 1);
    assert!(d.entries.is_empty());
}

#[test]
fn decoded_payload_checks() {
    let p = Payload { spec_version: 99, entries: Vec::new() };
    assert_eq!(
        check_decoded(p).err(),
        Some(Error::InvalidFormat("unsupported payload spec version"))
    );
    let mut p = Payload::new();
    p.entries.push(note("a", "A"));
    assert_eq!(check_decoded(p).unwrap().entries.len(), 1);
}

#[test]
fn add_get_delete_entries() {
    let mut p = Payload::new();
    p.add_entry(login("id-1", "GitHub", &["dev"])).unwrap();
    p.add_entry(note("id-2", "Grocery")).unwrap();
    assert_eq!(p.find_entry("id-2"), Some(1));
    assert_eq!(p.get_entry("id-1").unwrap().title, "GitHub");
    assert!(p.get_entry("id-3").is_none());
    assert!(p.delete_entry("id-1"));
    assert!(!p.delete_entry("id-1"));
    assert_eq!(p.entries.len(), 1);
    assert_eq!(p.find_entry("id-1"), None);
    assert_eq!(p.find_entry("id-2"), Some(0));
}

#[test]
fn add_entry_enforces_tag_limit() {
    let mut p = Payload::new();
    let tags: Vec<String> = (0..MAX_TAGS + 1).map(|i| format!("t{i}")).collect();
    let mut e = note("x", "X");
    e.tags = tags;
    assert_eq!(p.add_entry(e), Err(Error::InvalidFormat("too many tags")));
    assert!(p.entries.is_empty());
}

#[test]
fn add_entry_enforces_entry_limit() {
    let mut p = Payload::new();
    for i in 0..MAX_ENTRIES {
        p.entries.push(note(&format!("{i}"), "n"));
    }
    assert_eq!(p.add_entry(note("last", "L")), Err(Error::InvalidFormat("too many entries")));
    assert_eq!(p.entries.len(), MAX_ENTRIES);
    p.entries.push(note("over", "O"));
    assert_eq!(check_decoded(p).err(), Some(Error::InvalidFormat("too many entries")));
}

#[test]
fn update_changes_given_login_fields() {
    let mut u = no_update();
    u.username = Some("new-user".to_string());
    u.password = Some("new-pass".to_string());
    u.url = Some("https://example.org".to_string());
    u.title = Some("GitLab".to_string());
    let e = apply_update(login("id", "GitHub", &["dev"]), u, 99);
    assert_eq!(e.title, "GitLab");
    assert_eq!(e.updated_at, 99);
    assert_eq!(e.created_at, 10);
    assert_eq!(e.tags, vec!["dev".to_string()]);
    match e.body {
        EntryBody::Login(l) => {
            assert_eq!(l.username, "new-user");
            assert_eq!(l.password, "new-pass");
            assert_eq!(l.url, "https://example.org");
        }
        EntryBody::Note(_) => panic!("wrong type"),
    }
    let mut u = no_update();
    u.password = Some("p2".to_string());
    match apply_update(login("id", "GitHub", &[]), u, 1).body {
        EntryBody::Login(l) => {
            assert_eq!(l.password, "p2");
            assert_eq!(l.username, "octocat");
            assert_eq!(l.url, "https://github.com");
        }
        EntryBody::Note(_) => panic!("wrong type"),
    }
}

#[test]
fn update_note_body_and_tags() {
    let mut u = no_update();
    u.body = Some("milk".to_string());
    u.username = Some("ignored".to_string());
    u.tags = Some(vec!["home".to_string()]);
    let e = apply_update(note("n", "Grocery"), u, 7);
    assert_eq!(e.tags, vec!["home".to_string()]);
    match e.body {
        EntryBody::Note(n) => assert_eq!(n.body, "milk"),
        EntryBody::Login(_) => panic!("wrong type"),
    }
}

#[test]
fn update_entry_finds_by_id() {
    let mut p = Payload::new();
    p.add_entry(login("a", "GitHub", &[])).unwrap();
    p.add_entry(note("b", "Grocery")).unwrap();
    let mut u = no_update();
    u.title = Some("Shopping".to_string());
    p.update_entry("b", u, 42).unwrap();
    assert_eq!(p.entries[1].title, "Shopping");
    assert_eq!(p.entries[1].updated_at, 42);
    assert_eq!(p.entries[0].title, "GitHub");
    assert_eq!(p.update_entry("zzz", no_update(), 1), Err(Error::InvalidFormat("no matching entry")));
}

#[test]
fn search_matches_title_or_tag_ignoring_case() {
    let mut p = Payload::new();
    p.add_entry(login("a", "GitHub", &["dev", "Work"])).unwrap();
    p.add_entry(note("b", "Grocery list")).unwrap();
    p.add_entry(login("c", "Bank", &["money"])).unwrap();
    assert_eq!(p.search("work"), vec![0]);
    assert_eq!(p.search("GR"), vec![1]);
    assert_eq!(p.search("git"), vec![0]);
    assert_eq!(p.search("nothing"), Vec::<usize>::new());
    assert_eq!(p.search(""), vec![0, 1, 2]);
}

#[test]
fn clock_readings_to_unix_time() {
    assert_eq!(unix_seconds(Ok(1_700_000_000)), 1_700_000_000);
    assert_eq!(unix_seconds(Err(5)), -5);
    assert_eq!(unix_seconds(Ok(0)), 0);
    assert_eq!(unix_seconds(Err(1u64 << 63)), i64::MIN);
}

#[test]
fn decoded_payload_rejects_too_many_tags() {
    let mut p = Payload::new();
    let mut e = note("a", "A");
    e.tags = (0..MAX_TAGS + 1).map(|i| format!("t{i}")).collect();
    p.entries.push(e);
    assert_eq!(check_decoded(p).err(), Some(Error::InvalidFormat("too many tags")));
    let mut p = Payload::new();
    let mut e = note("a", "A");
    e.tags = (0..MAX_TAGS).map(|i| format!("t{i}")).collect();
    p.entries.push(e);
    assert!(check_decoded(p).is_ok());
}

#[test]
fn id_from_bytes_sets_version_bits() {
    assert_eq!(id_from_bytes([0xff; 16]), "ffffffff-ffff-4fff-bfff-ffffffffffff");
    assert_eq!(id_from_bytes([0x00; 16]), "00000000-0000-4000-8000-000000000000");
}
