use feed_sync::entry::{Entry, Snapshot};
use feed_sync::manager::{FeedManager, FetchError, Fetched};

const FEED: &str = r#"<?xml version="1.0" encoding="UTF-8"?>
<rss version="2.0">
    <channel>
        <title>Sample Feed</title>
        <link>http://example.com/</link>
        <description>Sample feed</description>
        <language>en</language>
        <item>
            <title>Item 1</title>
            <link>http://example.com/item1</link>
            <guid>item-1</guid>
            <description>Item 1 description</description>
            <category>News</category>
            <pubDate>Mon, 06 Sep 2010 16:20:00 +0000</pubDate>
        </item>
        <item>
            <title>Item 2</title>
            <link>http://example.com/item2</link>
            <guid>item-2</guid>
            <description>Item 2 description</description>
            <pubDate>Mon, 06 Sep 2010 16:20:00 +0000</pubDate>
        </item>
    </channel>
</rss>
"#;

fn entry(title: &str) -> Entry {
    let mut entry = Entry::default();
    entry.id = format!("id-{}", title);
    entry.title = Some(title.to_string());
    entry
}

fn snapshot(id: &str, entries: Vec<Entry>) -> Snapshot {
    Snapshot { id: id.to_string(), title: Some(id.to_string()), language: None, entries }
}

fn fetched(url: &str, entries: Vec<Entry>) -> Fetched {
    Fetched { url: url.to_string(), outcome: Ok(snapshot(url, entries)) }
}

fn titles(entries: &Vec<Entry>) -> Vec<String> {
    entries.iter().map(|e| e.title.clone().unwrap_or_default()).collect()
}

/// What fetching the document gives: its snapshot, as the parser reads it.
fn from_body(url: &str, body: &[u8]) -> Fetched {
    let outcome = match feed_rs::parser::parse(body) {
        Ok(feed) => Ok(Snapshot {
            id: feed.id,
            title: feed.title.map(|t| t.content),
            language: feed.language,
            entries: feed
                .entries
                .into_iter()
                .map(|e| Entry {
                    id: e.id,
                    title: e.title.map(|t| t.content),
                    summary: e.summary.map(|t| t.content),
                    content: e.content.and_then(|c| c.body),
                    authors: e.authors.into_iter().map(|a| a.name.unwrap_or_default()).collect(),
                    categories: e.categories.into_iter().map(|c| c.term).collect(),
                    links: e.links.into_iter().map(|l| l.href).collect(),
                    language: e.language,
                    published: e.published.map(|d| d.to_string()),
                })
                .collect(),
        }),
        Err(_) => Err(FetchError::Parse),
    };
    Fetched { url: url.to_string(), outcome }
}

fn build_from_document(url: &str) -> FeedManager {
    let mut mg = FeedManager::new();
    mg.new_feed(url);
    mg.sync(&vec![from_body(url, FEED.as_bytes())]);
    mg
}

#[test]
fn test_add_feed() {
    let addr = &format!("http://{}", "127.0.0.1:1234");
    let mg = build_from_document(addr);
    let feed = mg.get_feed(addr);

    assert!(feed.is_some());
}

#[test]
fn test_new_feed_not_duplicating() {
    let addr = &format!("http://{}", "127.0.0.1:1234");
    let mut mg = build_from_document(addr);
    // add the same feed again to see if it's not duplicated
    mg.new_feed(addr);
    mg.sync(&vec![from_body(addr, FEED.as_bytes())]);

    assert_eq!(mg.feeds().len(), 1);

    assert!(!mg.feeds().is_empty());
    assert!(!mg.to_see().is_empty());
}

#[test]
fn test_remove_feed_by_url() {
    let addr = &format!("http://{}", "127.0.0.1:1234");
    let mut mg = build_from_document(addr);

    assert!(!mg.feeds().is_empty());
    mg.remove_feed_by_url(addr);
    assert!(mg.feeds().is_empty());
}

#[test]
fn test_purge_feed() {
    let url = "http://127.0.0.1:1234";
    let mut manager = build_from_document(url);
    let feed = manager.get_feed(url).unwrap().clone();
    assert_eq!(feed.entries.len(), 2);

    manager.remove_feed_by_url(url);

    assert!(manager.get_feed(url).is_none());
    assert!(!manager.feeds().iter().any(|slot| slot.url() == url && *slot.feed() == feed));
}

#[test]
fn a_document_fills_the_queue() {
    let mg = build_from_document("u");
    assert_eq!(titles(mg.to_see()), vec!["Item 1", "Item 2"]);
    assert_eq!(mg.get_feed("u").unwrap().title, Some("Sample Feed".to_string()));
    let failed = build_failure();
    assert_eq!(failed, vec!["u".to_string()]);
}

fn build_failure() -> Vec<String> {
    let mut mg = FeedManager::new();
    mg.new_feed("u");
    mg.sync(&vec![from_body("u", b"no feed at all")])
}

#[test]
fn new_manager_is_empty() {
    let mg = FeedManager::new();
    assert!(mg.feeds().is_empty());
    assert!(mg.to_see().is_empty());
    assert!(mg.already_seen().is_empty());
    assert!(mg.next().is_none());
    assert!(mg.get_feed("a").is_none());
}

#[test]
fn registering_twice_keeps_one_slot() {
    let mut mg = FeedManager::new();
    let placeholder = mg.new_feed("a");
    assert_eq!(placeholder, Snapshot::default());
    assert_eq!(placeholder.id, "");
    assert!(placeholder.entries.is_empty());
    mg.new_feed("b");
    mg.sync(&vec![fetched("a", vec![entry("x")])]);
    let before = mg.get_feed("a").unwrap().clone();
    let again = mg.new_feed("a");
    assert_eq!(mg.feeds().len(), 2);
    assert_eq!(again, before);
    assert_eq!(mg.get_feed("a"), Some(&before));
    assert_eq!(mg.feeds()[0].url(), "a");
    assert_eq!(mg.feeds()[1].url(), "b");
}

#[test]
fn removed_feed_is_not_found() {
    let mut mg = FeedManager::new();
    mg.new_feed("a");
    mg.new_feed("b");
    mg.new_feed("c");
    mg.remove_feed_by_url("b");
    assert!(mg.get_feed("b").is_none());
    assert!(mg.get_feed("a").is_some());
    assert!(mg.get_feed("c").is_some());
    assert_eq!(mg.feeds().len(), 2);
    assert_eq!(mg.feeds()[0].url(), "a");
    assert_eq!(mg.feeds()[1].url(), "c");
}

#[test]
fn removing_an_unknown_feed_changes_nothing() {
    let mut mg = FeedManager::new();
    mg.new_feed("a");
    mg.sync(&vec![fetched("a", vec![entry("x")])]);
    let before = mg.get_feed("a").unwrap().clone();
    mg.remove_feed_by_url("zzz");
    mg.remove_feed_by_url("zzz");
    assert_eq!(mg.feeds().len(), 1);
    assert_eq!(mg.get_feed("a"), Some(&before));
    assert_eq!(titles(mg.to_see()), vec!["x"]);
}

#[test]
fn sync_queues_in_registration_order() {
    let mut mg = FeedManager::new();
    mg.new_feed("a");
    mg.new_feed("b");
    // the results arrive in another order than the feeds were registered in
    let failed = mg.sync(&vec![fetched("b", vec![entry("y")]), fetched("a", vec![entry("x")])]);
    assert!(failed.is_empty());
    assert_eq!(titles(mg.to_see()), vec!["x", "y"]);
    assert_eq!(mg.next().unwrap().title, Some("y".to_string()));

    mg.decide(false);
    assert_eq!(titles(mg.to_see()), vec!["x"]);
    assert_eq!(mg.already_seen().len(), 1);
    assert_eq!(mg.already_seen()[0].entry, entry("y"));
    assert!(!mg.already_seen()[0].liked);
}

#[test]
fn decide_moves_the_tail_to_the_log() {
    let mut mg = FeedManager::new();
    mg.new_feed("a");
    mg.sync(&vec![fetched("a", vec![entry("x"), entry("y"), entry("z")])]);
    assert_eq!(mg.to_see().len(), 3);
    mg.decide(true);
    assert_eq!(mg.to_see().len(), 2);
    assert_eq!(titles(mg.to_see()), vec!["x", "y"]);
    assert_eq!(mg.already_seen().len(), 1);
    assert_eq!(mg.already_seen()[0].entry, entry("z"));
    assert!(mg.already_seen()[0].liked);
}

#[test]
fn deciding_until_the_queue_is_empty() {
    let mut mg = FeedManager::new();
    mg.new_feed("a");
    mg.sync(&vec![fetched("a", vec![entry("x"), entry("y")])]);
    let mut decided = 0;
    while mg.next().is_some() {
        mg.decide(decided % 2 == 0);
        decided += 1;
    }
    assert_eq!(decided, 2);
    assert!(mg.to_see().is_empty());
    assert_eq!(mg.already_seen().len(), 2);
    assert_eq!(mg.already_seen()[0].entry, entry("y"));
    assert!(mg.already_seen()[0].liked);
    assert_eq!(mg.already_seen()[1].entry, entry("x"));
    assert!(!mg.already_seen()[1].liked);
    assert_eq!(mg.feeds().len(), 1);
}

#[test]
fn discard_drops_the_tail_without_a_record() {
    let mut mg = FeedManager::new();
    assert!(mg.discard().is_none());
    mg.new_feed("a");
    mg.sync(&vec![fetched("a", vec![entry("x"), entry("y")])]);
    assert_eq!(mg.discard(), Some(entry("y")));
    assert_eq!(titles(mg.to_see()), vec!["x"]);
    assert!(mg.already_seen().is_empty());
}

#[test]
fn sync_skips_what_is_queued_already() {
    let mut mg = FeedManager::new();
    mg.new_feed("a");
    mg.new_feed("b");
    mg.sync(&vec![fetched("a", vec![entry("x"), entry("y"), entry("x")])]);
    assert_eq!(titles(mg.to_see()), vec!["x", "y"]);
    // a second round: "y" is queued, "z" is new, and "b" repeats "x" and "z"
    mg.sync(
        &vec![
            fetched("a", vec![entry("y"), entry("z")]),
            fetched("b", vec![entry("x"), entry("w"), entry("z")]),
        ],
    );
    assert_eq!(titles(mg.to_see()), vec!["x", "y", "z", "w"]);
    assert_eq!(titles(&mg.get_feed("a").unwrap().entries), vec!["y", "z"]);
    assert_eq!(titles(&mg.get_feed("b").unwrap().entries), vec!["x", "w", "z"]);
}

#[test]
fn queue_grows_by_the_distinct_new_entries() {
    let mut mg = FeedManager::new();
    mg.new_feed("a");
    mg.new_feed("b");
    mg.sync(&vec![fetched("a", vec![entry("1"), entry("2")])]);
    assert_eq!(mg.to_see().len(), 2);
    mg.sync(&vec![fetched("b", vec![entry("3"), entry("4"), entry("5")])]);
    assert_eq!(mg.to_see().len(), 5);
    mg.sync(&vec![fetched("a", vec![entry("6")]), fetched("b", vec![entry("7"), entry("7")])]);
    assert_eq!(mg.to_see().len(), 7);
    assert_eq!(titles(mg.to_see()), vec!["1", "2", "3", "4", "5", "6", "7"]);
}

#[test]
fn an_edited_entry_is_queued_again() {
    let mut mg = FeedManager::new();
    mg.new_feed("a");
    mg.sync(&vec![fetched("a", vec![entry("x")])]);
    let mut edited = entry("x");
    edited.content = Some("now with a body".to_string());
    mg.sync(&vec![fetched("a", vec![edited.clone()])]);
    assert_eq!(mg.to_see().len(), 2);
    assert_eq!(mg.to_see()[1], edited);
}

#[test]
fn a_judged_entry_is_not_queued_again() {
    let mut mg = FeedManager::new();
    mg.new_feed("a");
    mg.new_feed("b");
    mg.sync(&vec![fetched("a", vec![entry("x"), entry("y")])]);
    mg.decide(true);
    assert_eq!(titles(mg.to_see()), vec!["x"]);
    // the feed still holds "y", and another feed holds it too
    mg.sync(&vec![
        fetched("a", vec![entry("x"), entry("y"), entry("z")]),
        fetched("b", vec![entry("y"), entry("w")]),
    ]);
    assert_eq!(titles(mg.to_see()), vec!["x", "z", "w"]);
    assert_eq!(mg.already_seen().len(), 1);
    assert_eq!(titles(&mg.get_feed("a").unwrap().entries), vec!["x", "y", "z"]);
    mg.decide(false);
    mg.decide(false);
    mg.decide(false);
    mg.sync(&vec![fetched("a", vec![entry("x"), entry("y"), entry("z"), entry("w")])]);
    assert!(mg.to_see().is_empty());
    assert_eq!(mg.already_seen().len(), 4);
}

#[test]
fn an_edited_judged_entry_is_queued() {
    let mut mg = FeedManager::new();
    mg.new_feed("a");
    mg.sync(&vec![fetched("a", vec![entry("x")])]);
    mg.decide(true);
    let mut edited = entry("x");
    edited.summary = Some("changed".to_string());
    mg.sync(&vec![fetched("a", vec![entry("x"), edited.clone()])]);
    assert_eq!(mg.to_see().len(), 1);
    assert_eq!(mg.to_see()[0], edited);
}

#[test]
fn a_failed_fetch_keeps_the_old_snapshot() {
    let mut mg = FeedManager::new();
    mg.new_feed("a");
    mg.new_feed("b");
    mg.new_feed("c");
    mg.sync(&vec![fetched("a", vec![entry("x")]), fetched("b", vec![entry("y")])]);
    let a_before = mg.get_feed("a").unwrap().clone();
    let failed = mg.sync(
        &vec![
            Fetched { url: "a".to_string(), outcome: Err(FetchError::Network) },
            fetched("b", vec![entry("z")]),
            Fetched { url: "c".to_string(), outcome: Err(FetchError::Parse) },
            fetched("unknown", vec![entry("never")]),
        ],
    );
    assert_eq!(failed, vec!["a".to_string(), "c".to_string()]);
    assert_eq!(mg.get_feed("a"), Some(&a_before));
    assert_eq!(titles(&mg.get_feed("b").unwrap().entries), vec!["z"]);
    assert_eq!(mg.get_feed("c"), Some(&Snapshot::default()));
    assert_eq!(titles(mg.to_see()), vec!["x", "y", "z"]);
    assert_eq!(mg.feeds().len(), 3);
}

#[test]
fn the_first_result_for_a_feed_counts() {
    let mut mg = FeedManager::new();
    mg.new_feed("a");
    mg.sync(&vec![fetched("a", vec![entry("first")]), fetched("a", vec![entry("second")])]);
    assert_eq!(titles(mg.to_see()), vec!["first"]);
    assert_eq!(titles(&mg.get_feed("a").unwrap().entries), vec!["first"]);
}

#[test]
fn a_feed_without_a_result_is_left_alone() {
    let mut mg = FeedManager::new();
    mg.new_feed("a");
    mg.sync(&vec![fetched("a", vec![entry("x")])]);
    let failed = mg.sync(&vec![]);
    assert!(failed.is_empty());
    assert_eq!(titles(&mg.get_feed("a").unwrap().entries), vec!["x"]);
    assert_eq!(titles(mg.to_see()), vec!["x"]);
}

#[test]
fn entries_compare_field_by_field() {
    let a = entry("x");
    let mut b = entry("x");
    assert_eq!(a, b);
    assert!(a.same_as(&b));
    b.authors.push("someone".to_string());
    assert_ne!(a, b);
    let mut c = entry("x");
    c.language = Some("en".to_string());
    assert_ne!(a, c);
    let mut d = entry("x");
    d.title = None;
    assert_ne!(a, d);
    assert_eq!(Entry::default(), Entry::default());
    assert_eq!(a.clone(), a);
}
