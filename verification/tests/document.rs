use pls::document::ConfigDocument;

fn b(s: &str) -> Vec<u8> {
    s.as_bytes().to_vec()
}

fn s(v: Vec<u8>) -> String {
    String::from_utf8(v).unwrap()
}

#[test]
fn parse_then_serialize_is_identity() {
    let text = b("# a comment\nname = \"Deep Space\"\n\n[extras]\nnote = \"kept\"\n");
    let doc = ConfigDocument::parse(&text).unwrap();
    assert_eq!(doc.serialize(), text);
}

#[test]
fn serialization_is_idempotent() {
    let text = b("version = \"1.0.0\"\n# trailing comment");
    let once = ConfigDocument::parse(&text).unwrap().serialize();
    let twice = ConfigDocument::parse(&once).unwrap().serialize();
    assert_eq!(once, twice);
}

#[test]
fn get_str_reads_top_level_entries() {
    let text = b("name = \"The Show\"\ncount = 5\n[table]\nname = \"shadowed\"");
    let doc = ConfigDocument::parse(&text).unwrap();
    assert_eq!(doc.get_str(&b("name")), Some(b("The Show")));
    // a non-string value is not a string entry
    assert_eq!(doc.get_str(&b("count")), None);
    // entries inside a table are not top-level
    assert_eq!(doc.get_str(&b("missing")), None);
}

#[test]
fn get_list_reads_string_arrays() {
    let text = b("ordering = [\"b\", \"a\"]\nplain = \"x\"");
    let doc = ConfigDocument::parse(&text).unwrap();
    assert_eq!(doc.get_list(&b("ordering")), Some(vec![b("b"), b("a")]));
    assert_eq!(doc.get_list(&b("plain")), None);
    let empty = ConfigDocument::parse(&b("ordering = []")).unwrap();
    assert_eq!(empty.get_list(&b("ordering")), Some(Vec::new()));
}

#[test]
fn get_table_returns_the_region() {
    let text = b("top = \"1\"\n[alpha]\nx = \"a\"\n# note\n[beta]\ny = \"b\"");
    let doc = ConfigDocument::parse(&text).unwrap();
    let alpha = doc.get_table(&b("alpha")).unwrap();
    assert_eq!(alpha.get_str(&b("x")), Some(b("a")));
    assert_eq!(alpha.get_str(&b("y")), None);
    let beta = doc.get_table(&b("beta")).unwrap();
    assert_eq!(beta.get_str(&b("y")), Some(b("b")));
    assert!(doc.get_table(&b("gamma")).is_none());
}

#[test]
fn set_str_rewrites_only_its_line() {
    let text = b("# header comment\nname = \"A\"\nnext = \"old.mkv\"  # stale\nother = \"kept\"\n[t]\nz = \"1\"");
    let mut doc = ConfigDocument::parse(&text).unwrap();
    doc.set_str(&b("next"), &b("new.mkv"));
    let out = s(doc.serialize());
    assert_eq!(
        out,
        "# header comment\nname = \"A\"\nnext = \"new.mkv\"\nother = \"kept\"\n[t]\nz = \"1\""
    );
}

#[test]
fn set_str_inserts_at_end_of_top_region() {
    let text = b("name = \"A\"\n[t]\nz = \"1\"");
    let mut doc = ConfigDocument::parse(&text).unwrap();
    doc.set_str(&b("next"), &b("ep1.mkv"));
    assert_eq!(s(doc.serialize()), "name = \"A\"\nnext = \"ep1.mkv\"\n[t]\nz = \"1\"");
    let mut tail = ConfigDocument::parse(&b("only = \"x\"")).unwrap();
    tail.set_str(&b("next"), &b("y"));
    assert_eq!(s(tail.serialize()), "only = \"x\"\nnext = \"y\"");
}

#[test]
fn set_str_escapes_and_reads_back() {
    let mut doc = ConfigDocument::parse(&b("")).unwrap();
    let tricky = b("dir\\sub \"quoted\"");
    doc.set_str(&b("next"), &tricky);
    let out = doc.serialize();
    let reparsed = ConfigDocument::parse(&out).unwrap();
    assert_eq!(reparsed.get_str(&b("next")), Some(tricky));
}

#[test]
fn parse_reports_first_bad_line() {
    let text = b("good = \"1\"\nnot an entry\nalso bad");
    let err = ConfigDocument::parse(&text).unwrap_err();
    assert_eq!(err.line, 1);
}

#[test]
fn parse_rejects_unclosed_string() {
    let text = b("next = \"unclosed");
    assert!(ConfigDocument::parse(&text).is_err());
}

#[test]
fn parse_keeps_unknown_scalars_opaque() {
    // numbers, booleans and dates are accepted and ignored
    let text = b("port = 8080\nflag = true\nwhen = 2021-01-01");
    let doc = ConfigDocument::parse(&text).unwrap();
    assert_eq!(doc.get_str(&b("port")), None);
    assert_eq!(doc.serialize(), text);
}

#[test]
fn values_allow_trailing_comments() {
    let text = b("name = \"A\" # display name");
    let doc = ConfigDocument::parse(&text).unwrap();
    assert_eq!(doc.get_str(&b("name")), Some(b("A")));
}

#[test]
fn carriage_returns_are_tolerated_and_kept() {
    let text = b("name = \"A\"\r\nnext = \"n.mkv\"\r\n");
    let doc = ConfigDocument::parse(&text).unwrap();
    assert_eq!(doc.get_str(&b("name")), Some(b("A")));
    assert_eq!(doc.get_str(&b("next")), Some(b("n.mkv")));
    assert_eq!(doc.serialize(), text);
}

#[test]
fn header_names_may_be_padded() {
    let text = b("[ alpha ]\nx = \"1\"");
    let doc = ConfigDocument::parse(&text).unwrap();
    let alpha = doc.get_table(&b("alpha")).unwrap();
    assert_eq!(alpha.get_str(&b("x")), Some(b("1")));
}
