use pls::document::ConfigDocument;
use pls::show::Show;
use pls::state::{merge_ordered_keys, resolve_version, State, Version};

fn b(s: &str) -> Vec<u8> {
    s.as_bytes().to_vec()
}

fn show(dir: &str, next: &str) -> Show {
    Show { name: b("n"), dir: b(dir), next: b(next), sep: b'/' }
}

#[test]
fn version_parses_only_known_strings() {
    assert_eq!(Version::from_str(&b("1.0.0")), Some(Version::V1_0_0));
    assert_eq!(Version::from_str(&b("2.0.0")), None);
    assert_eq!(Version::from_str(&b("")), None);
    assert_eq!(Version::fallback(), Version::V1_0_0);
    assert_eq!(Version::V1_0_0.as_bytes(), b("1.0.0"));
}

#[test]
fn unknown_version_falls_back_with_warning() {
    let doc = ConfigDocument::parse(&b("version = \"9.9.9\"")).unwrap();
    assert_eq!(resolve_version(&doc), (Version::V1_0_0, true));
    let doc = ConfigDocument::parse(&b("version = \"1.0.0\"")).unwrap();
    assert_eq!(resolve_version(&doc), (Version::V1_0_0, false));
    let doc = ConfigDocument::parse(&b("")).unwrap();
    assert_eq!(resolve_version(&doc), (Version::V1_0_0, true));
}

#[test]
fn ordering_merge_keeps_declared_order_first() {
    // declared ["b","a"], discovered {a,b,c}: exactly ["b","a","c"]
    let ordering = vec![b("b"), b("a")];
    let keys = vec![b("a"), b("b"), b("c")];
    assert_eq!(merge_ordered_keys(ordering, keys), vec![b("b"), b("a"), b("c")]);
}

#[test]
fn ordering_merge_appends_missing_alphabetically() {
    let ordering = vec![b("zeta")];
    let keys = vec![b("delta"), b("beta"), b("zeta"), b("alpha")];
    assert_eq!(
        merge_ordered_keys(ordering, keys),
        vec![b("zeta"), b("alpha"), b("beta"), b("delta")]
    );
}

#[test]
fn ordering_merge_drops_duplicate_declared_keys() {
    let ordering = vec![b("a"), b("b"), b("a")];
    let keys = vec![b("a")];
    assert_eq!(merge_ordered_keys(ordering, keys), vec![b("a"), b("b")]);
}

#[test]
fn new_builds_the_full_state() {
    let text = b("version = \"1.0.0\"\nordering = [\"b\", \"a\"]\n");
    let shows = vec![
        (b("a"), show("/m/a", "a1.mkv")),
        (b("b"), show("/m/b", "b1.mkv")),
        (b("c"), show("/m/c", "c1.mkv")),
    ];
    let (st, version_defaulted) = State::new(&text, b("/cfg/pls.toml"), shows).unwrap();
    assert!(!version_defaulted);
    assert_eq!(st.config_version, Version::V1_0_0);
    assert_eq!(st.ordered_keys, vec![b("b"), b("a"), b("c")]);
    assert_eq!(st.selected_key, b("b"));
    assert_eq!(st.config_path, b("/cfg/pls.toml"));
    assert_eq!(st.error, None);
    assert!(!st.about_window_is_open);
    assert_eq!(st.get_show(&b("a")).unwrap().dir, b("/m/a"));
    assert!(st.get_show(&b("zz")).is_none());
}

#[test]
fn new_without_ordering_sorts_keys() {
    let text = b("");
    let shows = vec![(b("b"), show("/m/b", "x")), (b("a"), show("/m/a", "y"))];
    let (st, version_defaulted) = State::new(&text, b("/cfg/pls.toml"), shows).unwrap();
    assert!(version_defaulted);
    assert_eq!(st.ordered_keys, vec![b("a"), b("b")]);
    assert_eq!(st.selected_key, b("a"));
}

#[test]
fn new_rejects_a_broken_main_config() {
    let text = b("ordering = [\"a\"\n");
    assert!(State::new(&text, b("/cfg/pls.toml"), Vec::new()).is_err());
}

#[test]
fn reload_config_replaces_everything() {
    let (mut st, _) = State::new(
        &b("ordering = [\"a\"]"),
        b("/cfg/pls.toml"),
        vec![(b("a"), show("/m/a", "one.mkv"))],
    )
    .unwrap();
    st.error = Some(b("old error"));
    let defaulted = st
        .reload_config(&b("version = \"1.0.0\""), vec![(b("z"), show("/m/z", "z.mkv"))])
        .unwrap();
    assert!(!defaulted);
    assert_eq!(st.ordered_keys, vec![b("z")]);
    assert_eq!(st.selected_key, b("z"));
    assert_eq!(st.error, None);
    assert_eq!(st.config_path, b("/cfg/pls.toml"));
}

#[test]
fn failed_reload_changes_nothing() {
    let (mut st, _) = State::new(
        &b("ordering = [\"a\"]"),
        b("/cfg/pls.toml"),
        vec![(b("a"), show("/m/a", "one.mkv"))],
    )
    .unwrap();
    assert!(st.reload_config(&b("broken = \"..."), Vec::new()).is_err());
    assert_eq!(st.ordered_keys, vec![b("a")]);
    assert_eq!(st.selected_key, b("a"));
}

#[test]
fn save_config_round_trips_through_the_fragment() {
    // save, then reload the produced text: the new pointer is there
    // and every other line is byte-identical
    let fragment = b("# my show\nname = \"A\"\nnext = \"a1.mkv\"\ndirectory = \"/m/a\"\n");
    let (mut st, _) = State::new(
        &b(""),
        b("/cfg/pls.toml"),
        vec![(b("a"), show("/m/a", "a1.mkv"))],
    )
    .unwrap();
    // advance the in-memory pointer, then save
    let eps = st.shows[0].1.episodes(vec![b("/m/a/a2.mkv"), b("/m/a/a1.mkv")]);
    st.shows[0].1.advance_to_next_episode(&eps);
    assert_eq!(st.shows[0].1.next, b("a2.mkv"));
    let written = st.save_config(&b("a"), &fragment).unwrap().unwrap();
    assert_eq!(
        String::from_utf8(written.clone()).unwrap(),
        "# my show\nname = \"A\"\nnext = \"a2.mkv\"\ndirectory = \"/m/a\"\n"
    );
    let reparsed = ConfigDocument::parse(&written).unwrap();
    assert_eq!(reparsed.get_str(&b("next")), Some(b("a2.mkv")));
    assert_eq!(reparsed.get_str(&b("name")), Some(b("A")));
    assert_eq!(reparsed.get_str(&b("directory")), Some(b("/m/a")));
}

#[test]
fn save_config_without_show_is_a_no_op() {
    let (st, _) = State::new(&b(""), b("/cfg/pls.toml"), Vec::new()).unwrap();
    assert_eq!(st.save_config(&b("nope"), &b("x = \"1\"")).unwrap(), None);
}

#[test]
fn save_config_propagates_fragment_parse_errors() {
    let (st, _) = State::new(
        &b(""),
        b("/cfg/pls.toml"),
        vec![(b("a"), show("/m/a", "one.mkv"))],
    )
    .unwrap();
    assert!(st.save_config(&b("a"), &b("next = \"broken")).is_err());
}
