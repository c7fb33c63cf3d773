use gakun::section::apply;
use gakun::store::{Config, GakunError};

#[test]
fn add_then_lookup() {
    let mut c = Config::new(100);
    assert_eq!(c.add("work", "gitlab.com", "/path/to/key", true), Ok(()));
    assert_eq!(c.lookup("work", "gitlab.com"), Ok("/path/to/key".to_string()));
    assert_eq!(c.lookup("work", "other.com"), Err(GakunError::NotFound));
}

#[test]
fn lookup_of_missing_profile_fails() {
    let mut c = Config::new(0);
    c.insert("work", "gitlab.com", "/k");
    assert_eq!(c.lookup("home", "gitlab.com"), Err(GakunError::NotFound));
}

#[test]
fn add_with_missing_key_changes_nothing() {
    let mut c = Config::new(5);
    c.insert("work", "gitlab.com", "/k1");
    assert_eq!(c.add("work", "gitlab.com", "/nope", false), Err(GakunError::InvalidKeyPath));
    assert_eq!(c.add("home", "github.com", "/nope", false), Err(GakunError::InvalidKeyPath));
    assert_eq!(c.lookup("work", "gitlab.com"), Ok("/k1".to_string()));
    assert_eq!(c.lookup("home", "github.com"), Err(GakunError::NotFound));
    assert_eq!(c.list().len(), 1);
    assert_eq!(c.updated_at(), 5);
}

#[test]
fn second_add_overwrites_first() {
    let mut c = Config::new(0);
    c.add("work", "gitlab.com", "/first", true).unwrap();
    c.add("work", "gitlab.com", "/second", true).unwrap();
    assert_eq!(c.lookup("work", "gitlab.com"), Ok("/second".to_string()));
    let listed = c.list();
    assert_eq!(listed.len(), 1);
    assert_eq!(listed[0].1, vec![("gitlab.com".to_string(), "/second".to_string())]);
}

#[test]
fn list_holds_every_entry() {
    let mut c = Config::new(0);
    c.insert("work", "gitlab.com", "/w1");
    c.insert("home", "github.com", "/h1");
    c.insert("work", "github.com", "/w2");
    let mut listed = c.list();
    listed.sort();
    assert_eq!(
        listed,
        vec![
            ("home".to_string(), vec![("github.com".to_string(), "/h1".to_string())]),
            (
                "work".to_string(),
                vec![
                    ("gitlab.com".to_string(), "/w1".to_string()),
                    ("github.com".to_string(), "/w2".to_string()),
                ]
            ),
        ]
    );
}

#[test]
fn empty_store_lists_nothing() {
    assert!(Config::new(0).list().is_empty());
}

#[test]
fn add_profile_keeps_existing_hosts() {
    let mut c = Config::new(0);
    c.add_profile("work");
    assert_eq!(c.list(), vec![("work".to_string(), vec![])]);
    c.insert("work", "h", "/k");
    c.add_profile("work");
    assert_eq!(c.lookup("work", "h"), Ok("/k".to_string()));
}

#[test]
fn touch_never_goes_back() {
    let mut c = Config::new(50);
    c.touch(70);
    assert_eq!(c.updated_at(), 70);
    c.touch(60);
    assert_eq!(c.updated_at(), 70);
}

#[test]
fn use_profile_splices_stored_key() {
    let mut c = Config::new(0);
    c.insert("work", "gitlab.com", "/path/to/key");
    let out = c.use_profile("work", "gitlab.com", b"foo\n").unwrap();
    assert_eq!(out, apply(b"foo\n", Some(("gitlab.com", "/path/to/key"))));
    let s = String::from_utf8(out).unwrap();
    assert_eq!(
        s,
        "###### gakun begin\nHost gitlab.com\n  Hostname gitlab.com\n  IdentityFile /path/to/key\n###### gakun end\nfoo\n"
    );
}

#[test]
fn use_profile_of_unknown_host_fails() {
    let c = Config::new(0);
    assert_eq!(c.use_profile("work", "gitlab.com", b""), Err(GakunError::NotFound));
}

#[test]
fn error_messages() {
    assert!(GakunError::NotFound.message().contains("gakun ls"));
    assert_eq!(GakunError::InvalidKeyPath.message(), "SSH key path is not valid");
}

#[test]
fn rebuilding_from_listing_gives_same_store() {
    let mut c = Config::new(42);
    c.insert("work", "gitlab.com", "/w1");
    c.insert("work", "github.com", "/w2");
    c.insert("home", "github.com", "/h1");
    c.add_profile("empty");
    let back = Config::from_listing(c.updated_at(), &c.list());
    assert_eq!(back.updated_at(), 42);
    assert_eq!(back.list(), c.list());
    assert_eq!(back.lookup("work", "github.com"), Ok("/w2".to_string()));
    assert_eq!(back.lookup("home", "github.com"), Ok("/h1".to_string()));
}

#[test]
fn from_listing_later_entries_win() {
    let listing = vec![
        ("p".to_string(), vec![("h".to_string(), "/a".to_string())]),
        ("p".to_string(), vec![("h".to_string(), "/b".to_string()), ("g".to_string(), "/c".to_string())]),
        ("q".to_string(), vec![]),
    ];
    let c = Config::from_listing(7, &listing);
    assert_eq!(c.lookup("p", "h"), Ok("/b".to_string()));
    assert_eq!(c.lookup("p", "g"), Ok("/c".to_string()));
    assert_eq!(c.lookup("q", "h"), Err(GakunError::NotFound));
    assert_eq!(c.list().len(), 2);
}
