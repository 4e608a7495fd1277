use pls::show::Show;

fn b(s: &str) -> Vec<u8> {
    s.as_bytes().to_vec()
}

fn show_at(next: &str) -> Show {
    Show { name: b("Example"), dir: b("/media/example"), next: b(next), sep: b'/' }
}

fn listing(show: &Show, names: &[&str]) -> Vec<Vec<u8>> {
    let raw: Vec<Vec<u8>> = names
        .iter()
        .map(|n| {
            let mut p = show.dir.clone();
            p.push(b'/');
            p.extend_from_slice(n.as_bytes());
            p
        })
        .collect();
    show.episodes(raw)
}

#[test]
fn current_episode_joins_dir_and_next() {
    let show = show_at("b.mkv");
    assert_eq!(show.current_episode(), b("/media/example/b.mkv"));
    let rooted = Show { name: b("R"), dir: b("/"), next: b("x.mkv"), sep: b'/' };
    assert_eq!(rooted.current_episode(), b("/x.mkv"));
}

#[test]
fn episodes_sorts_naturally() {
    let show = show_at("a.mkv");
    let eps = listing(&show, &["ep10.mkv", "ep1.mkv", "ep2.mkv"]);
    assert_eq!(
        eps,
        vec![
            b("/media/example/ep1.mkv"),
            b("/media/example/ep2.mkv"),
            b("/media/example/ep10.mkv"),
        ]
    );
}

#[test]
fn advance_moves_to_following_episode() {
    // dir holds [a, b, c] and next = b: advancing lands on c
    let mut show = show_at("b.mkv");
    let eps = listing(&show, &["a.mkv", "b.mkv", "c.mkv"]);
    show.advance_to_next_episode(&eps);
    assert_eq!(show.next, b("c.mkv"));
}

#[test]
fn advance_on_last_episode_stays_put() {
    let mut show = show_at("c.mkv");
    let eps = listing(&show, &["a.mkv", "b.mkv", "c.mkv"]);
    show.advance_to_next_episode(&eps);
    assert_eq!(show.next, b("c.mkv"));
}

#[test]
fn advance_on_missing_episode_stays_put() {
    // next names a file that is no longer in the directory
    let mut show = show_at("deleted.mkv");
    let eps = listing(&show, &["a.mkv", "b.mkv", "c.mkv"]);
    show.advance_to_next_episode(&eps);
    assert_eq!(show.next, b("deleted.mkv"));
}

#[test]
fn advance_follows_natural_order() {
    let mut show = show_at("ep2.mkv");
    let eps = listing(&show, &["ep10.mkv", "ep2.mkv", "ep1.mkv"]);
    show.advance_to_next_episode(&eps);
    assert_eq!(show.next, b("ep10.mkv"));
}

#[test]
fn previous_on_first_episode_is_none() {
    let show = show_at("a.mkv");
    let eps = listing(&show, &["a.mkv", "b.mkv", "c.mkv"]);
    assert_eq!(show.previous_episode(&eps), None);
}

#[test]
fn previous_returns_the_preceding_entry() {
    let show = show_at("c.mkv");
    let eps = listing(&show, &["a.mkv", "b.mkv", "c.mkv"]);
    assert_eq!(show.previous_episode(&eps), Some(b("/media/example/b.mkv")));
    // read-only: next is untouched
    assert_eq!(show.next, b("c.mkv"));
}

#[test]
fn previous_on_missing_episode_is_none() {
    let show = show_at("gone.mkv");
    let eps = listing(&show, &["a.mkv", "b.mkv"]);
    assert_eq!(show.previous_episode(&eps), None);
}
