//! Rows of the durable tables: how a judged entry is normalised and encoded
//! before it is stored, and what a stored row looks like when it is read back.
//!
//! Text columns are stored in lower case. Lists and the article body are
//! stored as JSON text, which `serde_json` produces.

use vstd::prelude::*;
use crate::entry::{Entry, EntryView};
use crate::manager::{registered, FeedManager, JudgedView, SlotView};
use crate::text::{lowercase, lowercase_each, lowercase_of, opt_view, text_or_empty};

verus! {

/// Why a row could not be built or read.
#[derive(Debug, Clone, Copy, PartialEq, Eq, Structural)]
pub enum StorageError {
    /// A column could not be encoded as JSON.
    Encode,
    /// A stored row carries no label.
    MissingLabel,
}

/// The error of `serde_json`; it is carried through unread.
#[verifier::external_type_specification]
#[verifier::external_body]
pub struct ExJsonError(serde_json::Error);

/// The JSON text of a string, as `serde_json::to_string` writes it.
pub uninterp spec fn json_of_text(s: Seq<char>) -> Seq<char>;

/// The JSON text of an array of strings, as `serde_json::to_string` writes it.
pub uninterp spec fn json_of_list(items: Seq<Seq<char>>) -> Seq<char>;

/// Calls `serde_json::to_string` on a string. Assumed: it succeeds, since
/// writing a string into memory cannot fail; and the text it returns is a
/// function of the string's characters alone, which is named `json_of_text`.
#[verifier::external_body]
fn encode_text(s: &String) -> (r: Result<String, serde_json::Error>)
    ensures
        r is Ok,
        r matches Ok(t) ==> t@ == json_of_text(s@),
{
    serde_json::to_string(s)
}

/// Calls `serde_json::to_string` on a list of strings. Assumed: it
/// succeeds, since writing strings into memory cannot fail; and the text it
/// returns is a function of the listed texts alone, which is named
/// `json_of_list`.
#[verifier::external_body]
fn encode_list(items: &Vec<String>) -> (r: Result<String, serde_json::Error>)
    ensures
        r is Ok,
        r matches Ok(t) ==> t@ == json_of_list(items.deep_view()),
{
    serde_json::to_string(items)
}

/// One row of the table of judged entries.
#[derive(Debug)]
pub struct JudgedRow {
    pub id: String,
    pub title: String,
    /// JSON array of the authors' names.
    pub authors: String,
    /// JSON string of the article body.
    pub content: String,
    /// JSON string of the canonical link.
    pub links: String,
    pub summary: String,
    /// JSON array of the category terms.
    pub categories: String,
    pub language: String,
    /// 1 for a liked entry, 0 for a disliked one.
    pub is_liked: i64,
}

/// What a row holds, as plain values.
pub struct JudgedRowView {
    pub id: Seq<char>,
    pub title: Seq<char>,
    pub authors: Seq<char>,
    pub content: Seq<char>,
    pub links: Seq<char>,
    pub summary: Seq<char>,
    pub categories: Seq<char>,
    pub language: Seq<char>,
    pub is_liked: int,
}

impl View for JudgedRow {
    type V = JudgedRowView;

    open spec fn view(&self) -> JudgedRowView {
        JudgedRowView {
            id: self.id@,
            title: self.title@,
            authors: self.authors@,
            content: self.content@,
            links: self.links@,
            summary: self.summary@,
            categories: self.categories@,
            language: self.language@,
            is_liked: self.is_liked as int,
        }
    }
}

/// The first text of a list, or the empty text where the list is empty.
pub open spec fn first_or_empty(items: Seq<Seq<char>>) -> Seq<char> {
    if items.len() > 0 {
        items[0]
    } else {
        Seq::empty()
    }
}

/// The row of a judged entry, given the four columns that are JSON text.
pub open spec fn row_with(
    e: EntryView,
    liked: bool,
    authors: Seq<char>,
    content: Seq<char>,
    links: Seq<char>,
    categories: Seq<char>,
) -> JudgedRowView {
    JudgedRowView {
        id: lowercase_of(e.id),
        title: lowercase_of(text_or_empty(e.title)),
        authors,
        content,
        links,
        summary: lowercase_of(text_or_empty(e.summary)),
        categories,
        language: lowercase_of(text_or_empty(e.language)),
        is_liked: if liked {
            1
        } else {
            0
        },
    }
}

/// The row under which a judged entry is stored: every text in lower case,
/// the names of the authors and the category terms as JSON arrays, the body
/// and the canonical link as JSON strings.
pub open spec fn row_of(e: EntryView, liked: bool) -> JudgedRowView {
    row_with(
        e,
        liked,
        json_of_list(lowercase_each(e.authors)),
        json_of_text(lowercase_of(text_or_empty(e.content))),
        json_of_text(lowercase_of(first_or_empty(e.links))),
        json_of_list(lowercase_each(e.categories)),
    )
}

/// The lower-case form of an optional text; of the empty text where it is
/// absent.
pub fn lowercase_or_empty(s: &Option<String>) -> (r: String)
    ensures
        r@ == lowercase_of(text_or_empty(opt_view(*s))),
{
    match s {
        Some(t) => lowercase(t.as_str()),
        None => {
            let empty = String::new();
            assert(empty@ =~= Seq::<char>::empty());
            lowercase(empty.as_str())
        },
    }
}

/// The lower-case form of the first text of a list; of the empty text where
/// the list is empty.
pub fn lowercase_first(items: &Vec<String>) -> (r: String)
    ensures
        r@ == lowercase_of(first_or_empty(items.deep_view())),
{
    if items.len() > 0 {
        lowercase(items[0].as_str())
    } else {
        let empty = String::new();
        assert(empty@ =~= Seq::<char>::empty());
        lowercase(empty.as_str())
    }
}

/// Lower-cases every text of a list.
pub fn lowercase_list(items: &Vec<String>) -> (r: Vec<String>)
    ensures
        r.deep_view() == lowercase_each(items.deep_view()),
{
    let mut r: Vec<String> = Vec::new();
    let mut i: usize = 0;
    while i < items.len()
        invariant
            i <= items.len(),
            r.len() == i,
            forall|k: int| 0 <= k < i ==> r[k]@ == lowercase_of(items[k]@),
        decreases items.len() - i,
    {
        r.push(lowercase(items[i].as_str()));
        i += 1;
    }
    assert(r.deep_view() =~= lowercase_each(items.deep_view()));
    r
}

/// Puts a row together from an entry, its label and the four JSON columns.
pub fn assemble_row(
    entry: &Entry,
    liked: bool,
    authors: String,
    content: String,
    links: String,
    categories: String,
) -> (row: JudgedRow)
    ensures
        row@ == row_with(entry@, liked, authors@, content@, links@, categories@),
{
    JudgedRow {
        id: lowercase(entry.id.as_str()),
        title: lowercase_or_empty(&entry.title),
        authors,
        content,
        links,
        summary: lowercase_or_empty(&entry.summary),
        categories,
        language: lowercase_or_empty(&entry.language),
        is_liked: if liked {
            1
        } else {
            0
        },
    }
}

/// Builds the row under which a judged entry is stored: the row that
/// `row_of` gives. The JSON columns come from `serde_json`, which does not
/// refuse a text.
pub fn judged_row(entry: &Entry, liked: bool) -> (r: Result<JudgedRow, StorageError>)
    ensures
        r matches Ok(row) && row@ == row_of(entry@, liked),
{
    let authors = match encode_list(&lowercase_list(&entry.authors)) {
        Ok(t) => t,
        Err(_) => { return Err(StorageError::Encode); },
    };
    let content = match encode_text(&lowercase_or_empty(&entry.content)) {
        Ok(t) => t,
        Err(_) => { return Err(StorageError::Encode); },
    };
    let links = match encode_text(&lowercase_first(&entry.links)) {
        Ok(t) => t,
        Err(_) => { return Err(StorageError::Encode); },
    };
    let categories = match encode_list(&lowercase_list(&entry.categories)) {
        Ok(t) => t,
        Err(_) => { return Err(StorageError::Encode); },
    };
    Ok(assemble_row(entry, liked, authors, content, links, categories))
}

/// One row of the table of judged entries as it is read back. A column that
/// is missing or holds no text is `None`.
#[derive(Debug)]
pub struct StoredRow {
    pub title: Option<String>,
    pub summary: Option<String>,
    pub content: Option<String>,
    pub authors: Option<String>,
    pub categories: Option<String>,
    pub links: Option<String>,
    /// The label: 0 for a disliked entry, anything else for a liked one.
    pub is_liked: Option<i64>,
}

/// What a stored row holds, as plain values.
pub struct StoredRowView {
    pub title: Option<Seq<char>>,
    pub summary: Option<Seq<char>>,
    pub content: Option<Seq<char>>,
    pub authors: Option<Seq<char>>,
    pub categories: Option<Seq<char>>,
    pub links: Option<Seq<char>>,
    pub is_liked: Option<int>,
}

impl View for StoredRow {
    type V = StoredRowView;

    open spec fn view(&self) -> StoredRowView {
        StoredRowView {
            title: opt_view(self.title),
            summary: opt_view(self.summary),
            content: opt_view(self.content),
            authors: opt_view(self.authors),
            categories: opt_view(self.categories),
            links: opt_view(self.links),
            is_liked: match self.is_liked {
                Some(v) => Some(v as int),
                None => None,
            },
        }
    }
}

/// The views of a list of stored rows, in order.
pub open spec fn stored_rows_view(rows: Seq<StoredRow>) -> Seq<StoredRowView> {
    Seq::new(rows.len(), |i: int| rows[i]@)
}

/// What reading a row back gives once it was stored: every column present.
pub open spec fn stored_form(row: JudgedRowView) -> StoredRowView {
    StoredRowView {
        title: Some(row.title),
        summary: Some(row.summary),
        content: Some(row.content),
        authors: Some(row.authors),
        categories: Some(row.categories),
        links: Some(row.links),
        is_liked: Some(row.is_liked),
    }
}

impl JudgedRow {
    /// The row as it is read back from the table.
    pub fn stored(&self) -> (r: StoredRow)
        ensures
            r@ == stored_form(self@),
    {
        StoredRow {
            title: Some(self.title.clone()),
            summary: Some(self.summary.clone()),
            content: Some(self.content.clone()),
            authors: Some(self.authors.clone()),
            categories: Some(self.categories.clone()),
            links: Some(self.links.clone()),
            is_liked: Some(self.is_liked),
        }
    }
}

/// The views of a list of rows, in order.
pub open spec fn judged_rows_view(rows: Seq<JudgedRow>) -> Seq<JudgedRowView> {
    Seq::new(rows.len(), |i: int| rows[i]@)
}

/// The rows under which a log of judged entries is stored, one for each
/// entry, in order.
pub open spec fn rows_of(log: Seq<JudgedView>) -> Seq<JudgedRowView> {
    Seq::new(log.len(), |i: int| row_of(log[i].entry, log[i].liked))
}

/// One row of the table of feeds.
#[derive(Debug)]
pub struct FeedRow {
    /// The identifier that the source gave; the key of the table.
    pub id: String,
    pub url: String,
}

/// What a row of the table of feeds holds, as plain values.
pub struct FeedRowView {
    pub id: Seq<char>,
    pub url: Seq<char>,
}

impl View for FeedRow {
    type V = FeedRowView;

    open spec fn view(&self) -> FeedRowView {
        FeedRowView { id: self.id@, url: self.url@ }
    }
}

/// The views of a list of rows, in order.
pub open spec fn feed_rows_view(rows: Seq<FeedRow>) -> Seq<FeedRowView> {
    Seq::new(rows.len(), |i: int| rows[i]@)
}

/// The rows under which the tracked feeds are stored, one for each feed, in
/// the order of the registry.
pub open spec fn feed_rows_of(feeds: Seq<SlotView>) -> Seq<FeedRowView> {
    Seq::new(feeds.len(), |i: int| FeedRowView { id: feeds[i].feed.id, url: feeds[i].url })
}

/// The registry after every source of `urls` was registered, in order.
pub open spec fn registered_all(feeds: Seq<SlotView>, urls: Seq<Seq<char>>) -> Seq<SlotView>
    decreases urls.len(),
{
    if urls.len() == 0 {
        feeds
    } else {
        registered(registered_all(feeds, urls.drop_last()), urls.last())
    }
}

impl FeedManager {
    /// The rows under which the log of judged entries is to be saved: one
    /// for each entry, in order, each as `row_of` gives it.
    pub fn save_already_seen(&self) -> (r: Result<Vec<JudgedRow>, StorageError>)
        ensures
            r matches Ok(rows) && judged_rows_view(rows@) == rows_of(self@.already_seen),
    {
        let log = self.already_seen();
        let mut rows: Vec<JudgedRow> = Vec::new();
        let mut i: usize = 0;
        while i < log.len()
            invariant
                i <= log.len(),
                rows.len() == i,
                forall|k: int|
                    0 <= k < i ==> (#[trigger] rows[k])@ == row_of(log[k]@.entry, log[k]@.liked),
            decreases log.len() - i,
        {
            match judged_row(&log[i].entry, log[i].liked) {
                Ok(row) => {
                    rows.push(row);
                },
                Err(e) => {
                    return Err(e);
                },
            }
            i += 1;
        }
        assert(judged_rows_view(rows@) =~= rows_of(self@.already_seen));
        Ok(rows)
    }

    /// The rows under which the tracked feeds are to be saved: one for each
    /// feed, in the order of the registry, with the identifier of its
    /// snapshot and its source.
    pub fn save_feeds(&self) -> (rows: Vec<FeedRow>)
        ensures
            feed_rows_view(rows@) == feed_rows_of(self@.feeds),
    {
        let feeds = self.feeds();
        let mut rows: Vec<FeedRow> = Vec::new();
        let mut i: usize = 0;
        while i < feeds.len()
            invariant
                i <= feeds.len(),
                rows.len() == i,
                forall|k: int|
                    0 <= k < i ==> (#[trigger] rows[k])@ == (FeedRowView {
                        id: feeds[k]@.feed.id,
                        url: feeds[k]@.url,
                    }),
            decreases feeds.len() - i,
        {
            rows.push(FeedRow { id: feeds[i].feed().id.clone(), url: feeds[i].url().clone() });
            i += 1;
        }
        assert(feed_rows_view(rows@) =~= feed_rows_of(self@.feeds));
        rows
    }

    /// Registers the sources that were read back from the table of feeds, in
    /// order. Their snapshots are not restored: each new slot holds the
    /// placeholder until the next sync.
    pub fn load_feeds_from_db(&mut self, urls: &Vec<String>)
        ensures
            final(self)@.feeds == registered_all(old(self)@.feeds, urls.deep_view()),
            final(self)@.to_see == old(self)@.to_see,
            final(self)@.already_seen == old(self)@.already_seen,
            final(self)@.wf(),
    {
        let ghost before = self@;
        let ghost all = urls.deep_view();
        let mut i: usize = 0;
        proof {
            use_type_invariant(&*self);
            assert(all.take(0) =~= Seq::<Seq<char>>::empty());
        }
        while i < urls.len()
            invariant
                i <= urls.len(),
                all == urls.deep_view(),
                self@.feeds == registered_all(before.feeds, all.take(i as int)),
                self@.to_see == before.to_see,
                self@.already_seen == before.already_seen,
                self@.wf(),
            decreases urls.len() - i,
        {
            proof {
                let next = all.take(i + 1);
                assert(next.drop_last() =~= all.take(i as int));
                assert(next.last() == urls[i as int]@);
            }
            let _ = self.new_feed(urls[i].as_str());
            i += 1;
        }
        assert(all.take(urls.len() as int) =~= all);
    }
}

} // verus!
