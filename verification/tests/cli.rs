use passman::cli::{
    choice_from, keep_nonempty, split_on_commas, type_from_lowercase,
    check_confirmation, check_new_passphrase, check_title, choose_entry, decode_type,
    default_vault_path, entry_label, join_tags, list_row, new_entry, parse_tags,
    passphrase_from_env, resolve_backup_target, resolve_candidates, resolve_id, short_id,
    title_contains, truncate, update_from_args, Resolved, BACKUP_FILENAME,
};
use passman::vault::payload::{Entry, EntryBody, EntryType, LoginData, NoteData};
use passman::Error;

fn login(id: &str, title: &str, username: &str) -> Entry {
    Entry {
        id: id.to_string(),
        title: title.to_string(),
        tags: vec!["dev".to_string(), "work".to_string()],
        created_at: 1,
        updated_at: 1,
        body: EntryBody::Login(LoginData {
            username: username.to_string(),
            password: "pw".to_string(),
            url: String::new(),
        }),
    }
}

fn note(id: &str, title: &str, body: &str) -> Entry {
    Entry {
        id: id.to_string(),
        title: title.to_string(),
        tags: Vec::new(),
        created_at: 1,
        updated_at: 1,
        body: EntryBody::Note(NoteData { body: body.to_string() }),
    }
}

#[test]
fn decode_entry_types() {
    assert_eq!(decode_type("login").unwrap(), EntryType::Login);
    assert_eq!(decode_type("NOTE").unwrap(), EntryType::Note);
    assert!(decode_type("bank").is_err());
}

#[test]
fn parse_tags_splits_and_trims() {
    assert_eq!(parse_tags(Some(" a, b , ,c ".into())), vec!["a", "b", "c"]);
    assert!(parse_tags(None).is_empty());
}

#[test]
fn truncate_ellipsis() {
    assert_eq!(truncate("short", 24), "short");
    assert_eq!(truncate("abcdefghij", 8), "abcde...");
}

#[test]
fn decode_type_short_forms_and_error() {
    assert_eq!(decode_type("Log"), Ok(EntryType::Login));
    assert_eq!(decode_type("n"), Ok(EntryType::Note));
    assert_eq!(decode_type("notes"), Err(Error::InvalidFormat("unknown entry type (login|note)")));
}

#[test]
fn truncate_tiny_widths() {
    assert_eq!(truncate("abcdef", 2), "...");
    assert_eq!(truncate("abcdef", 6), "abcdef");
    assert_eq!(truncate("ééééé", 4), "é...");
}

#[test]
fn short_id_takes_eight_characters() {
    assert_eq!(short_id("0123456789abcdef"), "01234567");
    assert_eq!(short_id("abc"), "abc");
}

#[test]
fn title_search_ignores_case() {
    let e = login("x", "Steam Account", "a");
    assert!(title_contains(&e, "steam"));
    assert!(title_contains(&e, "ACCOUNT"));
    assert!(!title_contains(&e, "bank"));
}

#[test]
fn labels_for_the_menu() {
    assert_eq!(entry_label(&login("x", "t", "acc1@gmail.com")), "acc1@gmail.com");
    assert_eq!(entry_label(&login("x", "t", "")), "(no username)");
    assert_eq!(entry_label(&note("x", "t", "  eggs, milk  ")), "eggs, milk");
}

#[test]
fn resolve_prefers_exact_then_prefix_then_title() {
    let entries = vec![
        login("abc", "Steam", "acc1"),
        login("abcdef", "Mail", "m"),
        login("zzz", "abc stuff", "x"),
    ];
    assert_eq!(resolve_candidates(&entries, "abc"), vec![0]);
    assert_eq!(resolve_candidates(&entries, "ab"), vec![0, 1]);
    assert_eq!(resolve_candidates(&entries, "STUFF"), vec![2]);
    assert!(resolve_candidates(&entries, "nothing").is_empty());
    assert!(matches!(resolve_id(&entries, "abc"), Ok(Resolved::Found(id)) if id == "abc"));
    assert!(matches!(resolve_id(&entries, "ab"), Ok(Resolved::Choose(m)) if m == vec![0, 1]));
    assert!(matches!(resolve_id(&entries, "nothing"), Err(Error::InvalidFormat("no matching entry"))));
}

#[test]
fn choosing_among_matches() {
    let entries = vec![login("id-1", "Steam", "acc1"), login("id-2", "Steam", "acc2")];
    let matches = vec![0, 1];
    assert_eq!(choose_entry(&entries, &matches, "2\n"), Ok("id-2".to_string()));
    assert_eq!(choose_entry(&entries, &matches, " 1 "), Ok("id-1".to_string()));
    assert_eq!(choose_entry(&entries, &matches, "q\n"), Err(Error::InvalidFormat("aborted by user")));
    assert_eq!(choose_entry(&entries, &matches, "Q"), Err(Error::InvalidFormat("aborted by user")));
    assert_eq!(choose_entry(&entries, &matches, ""), Err(Error::Ambiguous("id-1, id-2".to_string())));
    assert_eq!(choose_entry(&entries, &matches, "3"), Err(Error::Ambiguous("id-1, id-2".to_string())));
}

#[test]
fn backup_targets() {
    assert_eq!(resolve_backup_target("backups/", false), format!("backups/{BACKUP_FILENAME}"));
    assert_eq!(resolve_backup_target("backups", true), "backups/passman-vault-backup.enc");
    assert_eq!(resolve_backup_target("my-vault.enc", false), "my-vault.enc");
    assert_eq!(resolve_backup_target("", true), BACKUP_FILENAME);
}

#[test]
fn default_paths() {
    assert_eq!(default_vault_path(Some("/data"), Some("/home/u")), "/data/passman/vault.enc");
    assert_eq!(default_vault_path(Some("/data/"), None), "/data/passman/vault.enc");
    assert_eq!(default_vault_path(None, Some("/home/u")), "/home/u/.local/share/passman/vault.enc");
    assert_eq!(default_vault_path(None, None), "vault.enc");
}

#[test]
fn passphrase_policies() {
    assert_eq!(passphrase_from_env(String::new()), Err(Error::InvalidFormat("PASSMAN_PASSPHRASE is empty")));
    assert_eq!(passphrase_from_env("x".to_string()), Ok("x".to_string()));
    assert_eq!(
        check_new_passphrase("short"),
        Err(Error::InvalidFormat("master password must be at least 8 characters"))
    );
    assert_eq!(check_new_passphrase("12345678"), Ok(()));
    assert_eq!(
        check_new_passphrase("ééééééé"),
        Err(Error::InvalidFormat("master password must be at least 8 characters"))
    );
    assert_eq!(check_new_passphrase("éééééééé"), Ok(()));
    assert_eq!(check_confirmation(b"abc", b"abc"), Ok(()));
    assert_eq!(check_confirmation(b"abc", b"abd"), Err(Error::InvalidFormat("passwords do not match")));
    assert_eq!(check_confirmation(b"abc", b"ab"), Err(Error::InvalidFormat("passwords do not match")));
}

#[test]
fn titles_must_not_be_blank() {
    assert_eq!(check_title("   "), Err(Error::InvalidFormat("title is required")));
    assert_eq!(check_title("GitHub"), Ok(()));
}

#[test]
fn new_entries_and_updates_read_tags() {
    let e = new_entry("id".to_string(), "GitHub", Some("dev, work".to_string()), 5, EntryBody::Note(NoteData { body: String::new() }));
    assert_eq!(e.tags, vec!["dev".to_string(), "work".to_string()]);
    assert_eq!((e.created_at, e.updated_at), (5, 5));
    assert_eq!(e.title, "GitHub");
    let u = update_from_args(None, Some("u".to_string()), None, None, None, Some("a,,b".to_string()));
    assert_eq!(u.tags, Some(vec!["a".to_string(), "b".to_string()]));
    assert_eq!(u.username, Some("u".to_string()));
}

#[test]
fn list_rows_are_aligned() {
    let e = login("0123456789abcdef", "GitHub", "octocat");
    assert_eq!(
        list_row(&e),
        "01234567         login  GitHub                   dev,work"
    );
    let n = note("ab", "A very long title that does not fit", "x");
    assert_eq!(list_row(&n), "ab               note   A very long title tha... ");
    assert_eq!(join_tags(&vec!["a".to_string(), "b".to_string()], ", "), "a, b");
}

#[test]
fn steps_after_the_text_calls() {
    assert_eq!(type_from_lowercase("log"), Ok(EntryType::Login));
    assert!(type_from_lowercase("LOGIN").is_err());
    assert_eq!(split_on_commas(" a,,b "), vec![" a".to_string(), String::new(), "b ".to_string()]);
    assert_eq!(split_on_commas(""), vec![String::new()]);
    assert_eq!(
        keep_nonempty(vec!["a".to_string(), String::new(), "c".to_string()]),
        vec!["a".to_string(), "c".to_string()]
    );
    let entries = vec![login("id-1", "Steam", "acc1"), login("id-2", "Steam", "acc2")];
    assert_eq!(choice_from(&entries, &[0, 1], "2", Some(2)), Ok("id-2".to_string()));
    assert_eq!(choice_from(&entries, &[0, 1], "q", None), Err(Error::InvalidFormat("aborted by user")));
    assert_eq!(choice_from(&entries, &[1, 0], "x", None), Err(Error::Ambiguous("id-2, id-1".to_string())));
}
