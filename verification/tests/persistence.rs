use feed_sync::classifier::{EntryContent, NaiveBayesClassifier};
use feed_sync::entry::{Entry, Snapshot};
use feed_sync::manager::{FeedManager, Fetched};
use feed_sync::persistence::{assemble_row, judged_row, lowercase_list, lowercase_or_empty};
use feed_sync::tokens::tokenize;

fn entry(title: &str) -> Entry {
    let mut entry = Entry::default();
    entry.id = format!("ID-{}", title);
    entry.title = Some(title.to_string());
    entry
}

fn fetched(url: &str, id: &str, entries: Vec<Entry>) -> Fetched {
    Fetched {
        url: url.to_string(),
        outcome: Ok(Snapshot { id: id.to_string(), title: None, language: None, entries }),
    }
}

fn judged(entries: Vec<(Entry, bool)>) -> FeedManager {
    let mut manager = FeedManager::new();
    manager.new_feed("u");
    for (entry, liked) in entries {
        manager.sync(&vec![fetched("u", "feed", vec![entry])]);
        manager.decide(liked);
    }
    manager
}

#[test]
fn test_save_already_seen() {
    let manager = judged(vec![(Entry::default(), false)]);
    assert_eq!(manager.already_seen().len(), 1);
    let rows = manager.save_already_seen().expect("Failed to save already seen entries to the database");

    assert_eq!(rows.len(), 1);
    for row in rows {
        assert_eq!(row.id, "");
        assert_eq!(row.title, "");
        assert_eq!(row.authors, "[]");
        assert_eq!(row.content, "\"\"");
        assert_eq!(row.links, "\"\"");
        assert_eq!(row.summary, "");
        assert_eq!(row.categories, "[]");
        assert_eq!(row.language, "");
        assert_eq!(row.is_liked, 0);
    }
}

#[test]
fn test_save_feeds() {
    let round = vec![fetched("http://a", "feed-a", vec![entry("x")]), fetched("http://b", "feed-b", vec![])];
    let mut manager = FeedManager::new();
    manager.new_feed("http://a");
    manager.new_feed("http://b");
    manager.sync(&round);

    let rows = manager.save_feeds();
    assert_eq!(rows.len(), 2);
    assert_eq!(rows[0].id, "feed-a");
    assert_eq!(rows[0].url, "http://a");
    assert_eq!(rows[1].id, "feed-b");
    assert_eq!(rows[1].url, "http://b");

    let mut copy_manager = FeedManager::new();
    copy_manager.load_feeds_from_db(&rows.iter().map(|row| row.url.clone()).collect());
    assert_eq!(copy_manager.get_feed("http://a"), Some(&Snapshot::default()));
    copy_manager.sync(&round);

    assert_eq!(manager.feeds().len(), copy_manager.feeds().len());
    for (ours, theirs) in manager.feeds().iter().zip(copy_manager.feeds().iter()) {
        assert_eq!(ours.url(), theirs.url());
        assert_eq!(ours.feed(), theirs.feed());
    }
}

#[test]
fn loading_a_source_twice_keeps_one_slot() {
    let mut manager = FeedManager::new();
    manager.new_feed("b");
    manager.load_feeds_from_db(&vec!["a".to_string(), "b".to_string(), "a".to_string()]);
    assert_eq!(manager.feeds().len(), 2);
    assert_eq!(manager.feeds()[0].url(), "b");
    assert_eq!(manager.feeds()[1].url(), "a");
}

#[test]
fn rows_are_stored_in_lower_case() {
    let entry = Entry {
        id: "URN:Entry:1".to_string(),
        title: Some("Big NEWS".to_string()),
        summary: Some("In Short".to_string()),
        content: Some("The <b>Body</b>".to_string()),
        authors: vec!["Ann LEE".to_string(), "Bob".to_string()],
        categories: vec!["Tech".to_string()],
        links: vec!["HTTP://Example.com/A".to_string(), "http://example.com/B".to_string()],
        language: Some("EN-gb".to_string()),
        published: Some("2010-09-06 16:20:00 UTC".to_string()),
    };
    let row = judged_row(&entry, true).unwrap();
    assert_eq!(row.id, "urn:entry:1");
    assert_eq!(row.title, "big news");
    assert_eq!(row.authors, "[\"ann lee\",\"bob\"]");
    assert_eq!(row.content, "\"the <b>body</b>\"");
    assert_eq!(row.links, "\"http://example.com/a\"");
    assert_eq!(row.summary, "in short");
    assert_eq!(row.categories, "[\"tech\"]");
    assert_eq!(row.language, "en-gb");
    assert_eq!(row.is_liked, 1);
}

#[test]
fn json_columns_escape_what_json_needs_escaped() {
    let mut entry = Entry::default();
    entry.content = Some("a \"quoted\"\nline\\".to_string());
    entry.authors = vec!["O\"Neil".to_string()];
    let row = judged_row(&entry, false).unwrap();
    assert_eq!(row.content, "\"a \\\"quoted\\\"\\nline\\\\\"");
    assert_eq!(row.authors, "[\"o\\\"neil\"]");
}

#[test]
fn lower_casing_helpers() {
    assert_eq!(lowercase_or_empty(&Some("MiXed Ünïcode".to_string())), "mixed ünïcode");
    assert_eq!(lowercase_or_empty(&None), "");
    assert_eq!(lowercase_list(&vec!["A".to_string(), "b".to_string(), "ÇA".to_string()]), vec!["a", "b", "ça"]);
    assert!(lowercase_list(&vec![]).is_empty());
}

#[test]
fn a_row_is_put_together_from_its_columns() {
    let row = assemble_row(
        &entry("Hello"),
        true,
        "AUTHORS".to_string(),
        "CONTENT".to_string(),
        "LINKS".to_string(),
        "CATEGORIES".to_string(),
    );
    assert_eq!(row.id, "id-hello");
    assert_eq!(row.title, "hello");
    assert_eq!(row.authors, "AUTHORS");
    assert_eq!(row.content, "CONTENT");
    assert_eq!(row.links, "LINKS");
    assert_eq!(row.categories, "CATEGORIES");
    assert_eq!(row.summary, "");
    assert_eq!(row.language, "");
    assert_eq!(row.is_liked, 1);
}

#[test]
fn a_stored_row_reads_back_with_every_column() {
    let row = judged_row(&entry("Hello"), false).unwrap();
    let stored = row.stored();
    assert_eq!(stored.title, Some("hello".to_string()));
    assert_eq!(stored.summary, Some("".to_string()));
    assert_eq!(stored.content, Some("\"\"".to_string()));
    assert_eq!(stored.authors, Some("[]".to_string()));
    assert_eq!(stored.categories, Some("[]".to_string()));
    assert_eq!(stored.links, Some("\"\"".to_string()));
    assert_eq!(stored.is_liked, Some(0));
}

fn log() -> Vec<(Entry, bool)> {
    let mut log = Vec::new();
    for i in 0..60 {
        let mut liked = entry(&format!("Gardening Tips number{}", i));
        liked.summary = Some("Roses and Tulips".to_string());
        liked.content = Some("Prune the roses in spring".to_string());
        liked.authors = vec!["Ann Lee".to_string(), "Bob".to_string()];
        liked.categories = vec!["Garden".to_string()];
        liked.links = vec![format!("http://example.com/garden/{}", i)];
        log.push((liked, true));
        let mut disliked = entry(&format!("Bitcoin Deals number{}", i));
        disliked.summary = Some("Free Christmas coins".to_string());
        disliked.authors = vec!["Mallory".to_string()];
        disliked.links = vec![format!("http://example.com/coins/{}", i)];
        log.push((disliked, false));
    }
    log
}

#[test]
fn retraining_from_stored_rows_gives_the_same_model() {
    let log = log();
    let manager = judged(log.clone());
    assert_eq!(manager.already_seen().len(), 120);

    let mut direct = NaiveBayesClassifier::new_classifier(1);
    direct.train(
        manager
            .already_seen()
            .iter()
            .map(|judged| EntryContent::from_entry(&judged.entry, judged.liked))
            .collect(),
    );

    let rows = manager.save_already_seen().unwrap();
    let stored: Vec<_> = rows.iter().map(|row| row.stored()).collect();
    let reloaded = NaiveBayesClassifier::new(&stored).unwrap();

    assert!(direct.is_prepared());
    assert!(reloaded.is_prepared());
    assert_eq!(direct.tokens(), reloaded.tokens());
    assert_eq!(direct.liked_entries_count(), reloaded.liked_entries_count());
    assert_eq!(direct.disliked_entries_count(), reloaded.disliked_entries_count());
    for token in direct.tokens() {
        assert_eq!(direct.token_counts(&token), reloaded.token_counts(&token));
    }

    let mut probe = Entry::default();
    probe.title = Some("Free Bitcoin for your Roses".to_string());
    probe.summary = Some("christmas deals".to_string());
    let verdict = direct.classify(&probe);
    assert!(verdict.is_some());
    assert_eq!(verdict, reloaded.classify(&probe));
    assert_eq!(
        direct.probabilities_of_message(&tokenize("tulips")),
        reloaded.probabilities_of_message(&tokenize("tulips"))
    );
}
