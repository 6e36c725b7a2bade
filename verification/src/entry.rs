//! The data model: an entry of a feed, and a feed snapshot.

use vstd::prelude::*;
use crate::text::{copy_list, copy_opt, opt_view, same_list, same_opt};

verus! {

/// One article of a feed, as it was fetched.
#[derive(Debug)]
pub struct Entry {
    /// Identifier given by the source; may be empty.
    pub id: String,
    pub title: Option<String>,
    pub summary: Option<String>,
    /// Body of the article.
    pub content: Option<String>,
    /// Names of the authors, in the source's order.
    pub authors: Vec<String>,
    /// Category terms, in the source's order.
    pub categories: Vec<String>,
    /// Link targets; the first one is the canonical link.
    pub links: Vec<String>,
    pub language: Option<String>,
    /// Time of publication, as text.
    pub published: Option<String>,
}

/// What an entry holds, as plain sequences of characters.
pub struct EntryView {
    pub id: Seq<char>,
    pub title: Option<Seq<char>>,
    pub summary: Option<Seq<char>>,
    pub content: Option<Seq<char>>,
    pub authors: Seq<Seq<char>>,
    pub categories: Seq<Seq<char>>,
    pub links: Seq<Seq<char>>,
    pub language: Option<Seq<char>>,
    pub published: Option<Seq<char>>,
}

impl View for Entry {
    type V = EntryView;

    open spec fn view(&self) -> EntryView {
        EntryView {
            id: self.id@,
            title: opt_view(self.title),
            summary: opt_view(self.summary),
            content: opt_view(self.content),
            authors: self.authors.deep_view(),
            categories: self.categories.deep_view(),
            links: self.links.deep_view(),
            language: opt_view(self.language),
            published: opt_view(self.published),
        }
    }
}

/// The entry without any content: empty identifier, no text, no lists.
pub open spec fn empty_entry() -> EntryView {
    EntryView {
        id: Seq::empty(),
        title: None,
        summary: None,
        content: None,
        authors: Seq::empty(),
        categories: Seq::empty(),
        links: Seq::empty(),
        language: None,
        published: None,
    }
}

impl Entry {
    /// Whether two entries are equal field by field.
    pub fn same_as(&self, other: &Entry) -> (r: bool)
        ensures
            r == (self@ == other@),
    {
        self.id == other.id && same_opt(&self.title, &other.title) && same_opt(
            &self.summary,
            &other.summary,
        ) && same_opt(&self.content, &other.content) && same_list(&self.authors, &other.authors)
            && same_list(&self.categories, &other.categories) && same_list(
            &self.links,
            &other.links,
        ) && same_opt(&self.language, &other.language) && same_opt(
            &self.published,
            &other.published,
        )
    }
}

impl Clone for Entry {
    fn clone(&self) -> (r: Entry)
        ensures
            r@ == self@,
    {
        Entry {
            id: self.id.clone(),
            title: copy_opt(&self.title),
            summary: copy_opt(&self.summary),
            content: copy_opt(&self.content),
            authors: copy_list(&self.authors),
            categories: copy_list(&self.categories),
            links: copy_list(&self.links),
            language: copy_opt(&self.language),
            published: copy_opt(&self.published),
        }
    }
}

impl Default for Entry {
    fn default() -> (r: Entry)
        ensures
            r@ == empty_entry(),
    {
        let r = Entry {
            id: String::new(),
            title: None,
            summary: None,
            content: None,
            authors: Vec::new(),
            categories: Vec::new(),
            links: Vec::new(),
            language: None,
            published: None,
        };
        assert(r.authors.deep_view() =~= Seq::<Seq<char>>::empty());
        assert(r.categories.deep_view() =~= Seq::<Seq<char>>::empty());
        assert(r.links.deep_view() =~= Seq::<Seq<char>>::empty());
        r
    }
}

impl PartialEq for Entry {
    fn eq(&self, other: &Entry) -> (r: bool) {
        self.same_as(other)
    }
}

impl vstd::std_specs::cmp::PartialEqSpecImpl for Entry {
    open spec fn obeys_eq_spec() -> bool {
        true
    }

    open spec fn eq_spec(&self, other: &Entry) -> bool {
        self@ == other@
    }
}

/// The views of a list of entries, in order.
pub open spec fn entries_view(entries: Seq<Entry>) -> Seq<EntryView> {
    Seq::new(entries.len(), |i: int| entries[i]@)
}

/// A copy of a list of entries.
pub fn copy_entries(entries: &Vec<Entry>) -> (r: Vec<Entry>)
    ensures
        entries_view(r@) == entries_view(entries@),
{
    let mut r: Vec<Entry> = Vec::new();
    let mut i: usize = 0;
    while i < entries.len()
        invariant
            i <= entries.len(),
            r.len() == i,
            forall|k: int| 0 <= k < i ==> r[k]@ == entries[k]@,
        decreases entries.len() - i,
    {
        r.push(entries[i].clone());
        i += 1;
    }
    assert(entries_view(r@) =~= entries_view(entries@));
    r
}

/// Whether two lists hold equal entries in the same order.
pub fn same_entries(a: &Vec<Entry>, b: &Vec<Entry>) -> (r: bool)
    ensures
        r == (entries_view(a@) == entries_view(b@)),
{
    if a.len() != b.len() {
        assert(entries_view(a@).len() != entries_view(b@).len());
        return false;
    }
    let mut i: usize = 0;
    while i < a.len()
        invariant
            i <= a.len(),
            a.len() == b.len(),
            forall|k: int| 0 <= k < i ==> a[k]@ == b[k]@,
        decreases a.len() - i,
    {
        if !a[i].same_as(&b[i]) {
            assert(entries_view(a@)[i as int] != entries_view(b@)[i as int]);
            return false;
        }
        i += 1;
    }
    assert(entries_view(a@) =~= entries_view(b@));
    true
}

/// A snapshot of a feed: what its source published when it was last fetched.
#[derive(Debug)]
pub struct Snapshot {
    /// Identifier given by the source; empty until the feed was fetched.
    pub id: String,
    pub title: Option<String>,
    pub language: Option<String>,
    /// The entries, in the source's order.
    pub entries: Vec<Entry>,
}

/// What a snapshot holds, as plain values.
pub struct SnapshotView {
    pub id: Seq<char>,
    pub title: Option<Seq<char>>,
    pub language: Option<Seq<char>>,
    pub entries: Seq<EntryView>,
}

impl View for Snapshot {
    type V = SnapshotView;

    open spec fn view(&self) -> SnapshotView {
        SnapshotView {
            id: self.id@,
            title: opt_view(self.title),
            language: opt_view(self.language),
            entries: entries_view(self.entries@),
        }
    }
}

/// The snapshot of a feed that was never fetched: no identifier, no entries.
pub open spec fn placeholder_snapshot() -> SnapshotView {
    SnapshotView { id: Seq::empty(), title: None, language: None, entries: Seq::empty() }
}

impl Snapshot {
    /// Whether two snapshots are equal field by field.
    pub fn same_as(&self, other: &Snapshot) -> (r: bool)
        ensures
            r == (self@ == other@),
    {
        self.id == other.id && same_opt(&self.title, &other.title) && same_opt(
            &self.language,
            &other.language,
        ) && same_entries(&self.entries, &other.entries)
    }
}

impl Clone for Snapshot {
    fn clone(&self) -> (r: Snapshot)
        ensures
            r@ == self@,
    {
        Snapshot {
            id: self.id.clone(),
            title: copy_opt(&self.title),
            language: copy_opt(&self.language),
            entries: copy_entries(&self.entries),
        }
    }
}

impl Default for Snapshot {
    fn default() -> (r: Snapshot)
        ensures
            r@ == placeholder_snapshot(),
    {
        let r = Snapshot { id: String::new(), title: None, language: None, entries: Vec::new() };
        assert(entries_view(r.entries@) =~= Seq::<EntryView>::empty());
        r
    }
}

impl PartialEq for Snapshot {
    fn eq(&self, other: &Snapshot) -> (r: bool) {
        self.same_as(other)
    }
}

impl vstd::std_specs::cmp::PartialEqSpecImpl for Snapshot {
    open spec fn obeys_eq_spec() -> bool {
        true
    }

    open spec fn eq_spec(&self, other: &Snapshot) -> bool {
        self@ == other@
    }
}

} // verus!
