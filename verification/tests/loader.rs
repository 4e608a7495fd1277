use pls::document::ConfigDocument;
use pls::loader::{fragment_key, load_show, resolve_directory, LoadError};
use pls::natural::sort_natural;

fn b(s: &str) -> Vec<u8> {
    s.as_bytes().to_vec()
}

#[test]
fn fragment_key_skips_the_main_config() {
    assert_eq!(fragment_key(&b("pls.toml")), None);
}

#[test]
fn fragment_key_takes_the_file_stem() {
    assert_eq!(fragment_key(&b("deep-space.toml")), Some(b("deep-space")));
    assert_eq!(fragment_key(&b("plain")), Some(b("plain")));
    assert_eq!(fragment_key(&b("two.dots.toml")), Some(b("two.dots")));
    assert_eq!(fragment_key(&b(".hidden")), Some(b(".hidden")));
}

#[test]
fn host_specific_directory_wins() {
    // both keys set: the host key decides
    let text = b("directory = \"/generic\"\ndirectory_myhost = \"/override\"");
    let doc = ConfigDocument::parse(&text).unwrap();
    assert_eq!(resolve_directory(&doc, &b("myhost")), Some(b("/override")));
    // a different host falls back to the generic key
    assert_eq!(resolve_directory(&doc, &b("elsewhere")), Some(b("/generic")));
}

#[test]
fn directory_resolution_can_fail() {
    let doc = ConfigDocument::parse(&b("name = \"X\"")).unwrap();
    assert_eq!(resolve_directory(&doc, &b("myhost")), None);
}

#[test]
fn load_show_reads_all_fields() {
    let text = b("name = \"Deep Space\"\ndirectory = \"/media/ds\"\nnext = \"ep3.mkv\"");
    let doc = ConfigDocument::parse(&text).unwrap();
    let files = sort_natural(Vec::new());
    let (show, notes) =
        load_show(&doc, &b("ds"), Some(b("/media/ds")), &files, b'/').unwrap();
    assert_eq!(show.name, b("Deep Space"));
    assert_eq!(show.dir, b("/media/ds"));
    assert_eq!(show.next, b("ep3.mkv"));
    assert!(!notes.name_defaulted);
    assert!(!notes.next_defaulted);
}

#[test]
fn load_show_normalizes_separators() {
    let text = b("directory = \"/m\"\nnext = \"season1/ep1.mkv\"");
    let doc = ConfigDocument::parse(&text).unwrap();
    let files = sort_natural(Vec::new());
    let (show, _) = load_show(&doc, &b("k"), Some(b("/m")), &files, b'\\').unwrap();
    assert_eq!(show.next, b("season1\\ep1.mkv"));
}

#[test]
fn load_show_defaults_name_to_key() {
    let text = b("directory = \"/m\"\nnext = \"e.mkv\"");
    let doc = ConfigDocument::parse(&text).unwrap();
    let files = sort_natural(Vec::new());
    let (show, notes) = load_show(&doc, &b("my-key"), Some(b("/m")), &files, b'/').unwrap();
    assert_eq!(show.name, b("my-key"));
    assert!(notes.name_defaulted);
}

#[test]
fn load_show_falls_back_to_first_file() {
    let text = b("directory = \"/m\"");
    let doc = ConfigDocument::parse(&text).unwrap();
    let files = sort_natural(vec![b("/m/ep10.mkv"), b("/m/ep2.mkv")]);
    let (show, notes) = load_show(&doc, &b("k"), Some(b("/m")), &files, b'/').unwrap();
    // natural order puts ep2 first, and the path is made relative
    assert_eq!(show.next, b("ep2.mkv"));
    assert!(notes.next_defaulted);
}

#[test]
fn load_show_without_directory_fails() {
    let doc = ConfigDocument::parse(&b("name = \"X\"")).unwrap();
    let files = sort_natural(Vec::new());
    let err = load_show(&doc, &b("k"), None, &files, b'/').unwrap_err();
    assert_eq!(err, LoadError::MissingDirectory);
}

#[test]
fn load_show_without_episodes_fails() {
    let doc = ConfigDocument::parse(&b("directory = \"/m\"")).unwrap();
    let files = sort_natural(Vec::new());
    let err = load_show(&doc, &b("k"), Some(b("/m")), &files, b'/').unwrap_err();
    assert_eq!(err, LoadError::NoEpisodes);
}

#[test]
fn only_the_exact_main_name_is_reserved() {
    assert_eq!(fragment_key(&b("pls.txt")), Some(b("pls")));
    assert_eq!(fragment_key(&b("pls.toml.bak")), Some(b("pls.toml")));
}
