//! A single RSS channel that is followed on its own: the items seen so far,
//! and the time at which the source last said it had changed.

use vstd::prelude::*;
use vstd::string::StringExecFns;
use crate::parser::Parser;
use crate::text::{copy_list, copy_opt, opt_view, or_empty, same_list, same_opt, text_or_empty};

verus! {

/// Why a channel cannot be followed.
#[derive(Debug, Clone, Copy, PartialEq, Eq, Structural)]
pub enum RssError {
    /// The channel does not say when it was last built.
    NoBuildDate,
}

/// One item of a channel.
#[derive(Debug)]
pub struct Item {
    pub title: Option<String>,
    pub link: Option<String>,
    pub description: Option<String>,
    pub author: Option<String>,
    /// The names of the categories, in the source's order.
    pub categories: Vec<String>,
    /// Where the comments on the item are found.
    pub comments: Option<String>,
    pub pub_date: Option<String>,
    /// The address of the channel that the item came from.
    pub source: Option<String>,
    pub content: Option<String>,
    /// The item's iTunes extension, written out as text.
    pub itunes_ext: Option<String>,
    /// The item's Dublin Core extension, written out as text.
    pub dublin_core_ext: Option<String>,
}

/// What an item holds, as plain values.
pub struct ItemView {
    pub title: Option<Seq<char>>,
    pub link: Option<Seq<char>>,
    pub description: Option<Seq<char>>,
    pub author: Option<Seq<char>>,
    pub categories: Seq<Seq<char>>,
    pub comments: Option<Seq<char>>,
    pub pub_date: Option<Seq<char>>,
    pub source: Option<Seq<char>>,
    pub content: Option<Seq<char>>,
    pub itunes_ext: Option<Seq<char>>,
    pub dublin_core_ext: Option<Seq<char>>,
}

impl View for Item {
    type V = ItemView;

    open spec fn view(&self) -> ItemView {
        ItemView {
            title: opt_view(self.title),
            link: opt_view(self.link),
            description: opt_view(self.description),
            author: opt_view(self.author),
            categories: self.categories.deep_view(),
            comments: opt_view(self.comments),
            pub_date: opt_view(self.pub_date),
            source: opt_view(self.source),
            content: opt_view(self.content),
            itunes_ext: opt_view(self.itunes_ext),
            dublin_core_ext: opt_view(self.dublin_core_ext),
        }
    }
}

impl Item {
    /// Whether two items are equal field by field.
    pub fn same_as(&self, other: &Item) -> (r: bool)
        ensures
            r == (self@ == other@),
    {
        same_opt(&self.title, &other.title) && same_opt(&self.link, &other.link) && same_opt(
            &self.description,
            &other.description,
        ) && same_opt(&self.author, &other.author) && same_list(
            &self.categories,
            &other.categories,
        ) && same_opt(&self.comments, &other.comments) && same_opt(
            &self.pub_date,
            &other.pub_date,
        ) && same_opt(&self.source, &other.source) && same_opt(&self.content, &other.content)
            && same_opt(&self.itunes_ext, &other.itunes_ext) && same_opt(
            &self.dublin_core_ext,
            &other.dublin_core_ext,
        )
    }
}

impl Clone for Item {
    fn clone(&self) -> (r: Item)
        ensures
            r@ == self@,
    {
        Item {
            title: copy_opt(&self.title),
            link: copy_opt(&self.link),
            description: copy_opt(&self.description),
            author: copy_opt(&self.author),
            categories: copy_list(&self.categories),
            comments: copy_opt(&self.comments),
            pub_date: copy_opt(&self.pub_date),
            source: copy_opt(&self.source),
            content: copy_opt(&self.content),
            itunes_ext: copy_opt(&self.itunes_ext),
            dublin_core_ext: copy_opt(&self.dublin_core_ext),
        }
    }
}

impl PartialEq for Item {
    fn eq(&self, other: &Item) -> (r: bool) {
        self.same_as(other)
    }
}

impl vstd::std_specs::cmp::PartialEqSpecImpl for Item {
    open spec fn obeys_eq_spec() -> bool {
        true
    }

    open spec fn eq_spec(&self, other: &Item) -> bool {
        self@ == other@
    }
}

/// The views of a list of items, in order.
pub open spec fn items_view(items: Seq<Item>) -> Seq<ItemView> {
    Seq::new(items.len(), |i: int| items[i]@)
}

/// A copy of a list of items.
pub fn copy_items(items: &Vec<Item>) -> (r: Vec<Item>)
    ensures
        items_view(r@) == items_view(items@),
{
    let mut r: Vec<Item> = Vec::new();
    let mut i: usize = 0;
    while i < items.len()
        invariant
            i <= items.len(),
            r.len() == i,
            forall|k: int| 0 <= k < i ==> r[k]@ == items[k]@,
        decreases items.len() - i,
    {
        r.push(items[i].clone());
        i += 1;
    }
    assert(items_view(r@) =~= items_view(items@));
    r
}

/// Whether two lists hold equal items in the same order.
pub fn same_items(a: &Vec<Item>, b: &Vec<Item>) -> (r: bool)
    ensures
        r == (items_view(a@) == items_view(b@)),
{
    if a.len() != b.len() {
        assert(items_view(a@).len() != items_view(b@).len());
        return false;
    }
    let mut i: usize = 0;
    while i < a.len()
        invariant
            i <= a.len(),
            a.len() == b.len(),
            forall|k: int| 0 <= k < i ==> a[k]@ == b[k]@,
        decreases a.len() - i,
    {
        if !a[i].same_as(&b[i]) {
            assert(items_view(a@)[i as int] != items_view(b@)[i as int]);
            return false;
        }
        i += 1;
    }
    assert(items_view(a@) =~= items_view(b@));
    true
}

/// The names of the categories, each followed by a comma and a space.
pub open spec fn listed(names: Seq<Seq<char>>) -> Seq<char>
    decreases names.len(),
{
    if names.len() == 0 {
        Seq::empty()
    } else {
        listed(names.drop_last()) + names.last() + ", "@
    }
}

/// The text that is shown where the source does not name an author or a
/// date.
pub open spec fn unknown() -> Seq<char> {
    "Unknown"@
}

/// The text of an optional field, or `unknown()` where it is absent.
pub open spec fn known_or_unknown(s: Option<Seq<char>>) -> Seq<char> {
    match s {
        Some(t) => t,
        None => unknown(),
    }
}

/// The content as it is shown: nothing where it only repeats the
/// description.
pub open spec fn shown_content(item: ItemView) -> Seq<char> {
    if text_or_empty(item.content) == text_or_empty(item.description) {
        Seq::empty()
    } else {
        text_or_empty(item.content)
    }
}

/// The fragment for an item: title, author, categories, date of
/// publication, description, content and link, each on a line of its own.
pub open spec fn item_html(item: ItemView) -> Seq<char> {
    "\n        <h1>"@ + text_or_empty(item.title) + "</h1>\n        <p><strong>Author:</strong> "@
        + known_or_unknown(item.author) + "</p>\n        <p><strong>Categories:</strong> "@
        + listed(item.categories) + "</p>\n        <p><strong>Publication Date:</strong> "@
        + known_or_unknown(item.pub_date) + "</p>\n        <p><strong>Description:</strong> "@
        + text_or_empty(item.description) + "</p>\n        <p>"@ + shown_content(item)
        + "</p>\n        <p><a href=\""@ + text_or_empty(item.link)
        + "\">Read more</a></p> \n    "@
}

/// Writes the names of the categories, each followed by a comma and a space.
fn list_names(names: &Vec<String>) -> (r: String)
    ensures
        r@ == listed(names.deep_view()),
{
    let mut r = String::new();
    let ghost all = names.deep_view();
    let mut i: usize = 0;
    assert(r@ =~= listed(all.take(0)));
    while i < names.len()
        invariant
            i <= names.len(),
            all == names.deep_view(),
            r@ == listed(all.take(i as int)),
        decreases names.len() - i,
    {
        proof {
            let next = all.take(i + 1);
            assert(next.drop_last() =~= all.take(i as int));
            assert(next.last() == names[i as int]@);
        }
        r.append(names[i].as_str());
        r.append(", ");
        i += 1;
    }
    assert(all.take(names.len() as int) =~= all);
    r
}

impl Parser for Item {
    open spec fn html(&self) -> Seq<char> {
        item_html(self@)
    }

    fn into_html(&self) -> (r: String) {
        let description = or_empty(&self.description);
        let mut content = or_empty(&self.content);
        if content == description {
            content = String::new();
        }
        assert(content@ =~= shown_content(self@));
        let mut html = String::new();
        html.append("\n        <h1>");
        html.append(or_empty(&self.title).as_str());
        html.append("</h1>\n        <p><strong>Author:</strong> ");
        match &self.author {
            Some(t) => html.append(t.as_str()),
            None => html.append("Unknown"),
        }
        html.append("</p>\n        <p><strong>Categories:</strong> ");
        html.append(list_names(&self.categories).as_str());
        html.append("</p>\n        <p><strong>Publication Date:</strong> ");
        match &self.pub_date {
            Some(t) => html.append(t.as_str()),
            None => html.append("Unknown"),
        }
        html.append("</p>\n        <p><strong>Description:</strong> ");
        html.append(description.as_str());
        html.append("</p>\n        <p>");
        html.append(content.as_str());
        html.append("</p>\n        <p><a href=\"");
        html.append(or_empty(&self.link).as_str());
        html.append("\">Read more</a></p> \n    ");
        assert(html@ =~= item_html(self@));
        html
    }
}

/// Where a channel comes from.
#[derive(Debug)]
pub enum Origin {
    Url(String),
    File(String),
}

/// The origin of a channel, as plain values.
pub enum OriginView {
    Url(Seq<char>),
    File(Seq<char>),
}

impl View for Origin {
    type V = OriginView;

    open spec fn view(&self) -> OriginView {
        match self {
            Origin::Url(url) => OriginView::Url(url@),
            Origin::File(path) => OriginView::File(path@),
        }
    }
}

impl Clone for Origin {
    fn clone(&self) -> (r: Origin)
        ensures
            r@ == self@,
    {
        match self {
            Origin::Url(url) => Origin::Url(url.clone()),
            Origin::File(path) => Origin::File(path.clone()),
        }
    }
}

impl Origin {
    /// Whether two origins are the same.
    pub fn same_as(&self, other: &Origin) -> (r: bool)
        ensures
            r == (self@ == other@),
    {
        match (self, other) {
            (Origin::Url(a), Origin::Url(b)) => *a == *b,
            (Origin::File(a), Origin::File(b)) => *a == *b,
            _ => false,
        }
    }
}

impl PartialEq for Origin {
    fn eq(&self, other: &Origin) -> (r: bool) {
        self.same_as(other)
    }
}

impl vstd::std_specs::cmp::PartialEqSpecImpl for Origin {
    open spec fn obeys_eq_spec() -> bool {
        true
    }

    open spec fn eq_spec(&self, other: &Origin) -> bool {
        self@ == other@
    }
}

/// A channel that is followed: where it comes from, when its source last
/// built it, and the items seen so far.
#[derive(Debug)]
pub struct Rss {
    pub origin: Origin,
    pub last_updated: String,
    pub items: Vec<Item>,
}

/// A followed channel, as plain values.
pub struct RssView {
    pub origin: OriginView,
    pub last_updated: Seq<char>,
    pub items: Seq<ItemView>,
}

impl View for Rss {
    type V = RssView;

    open spec fn view(&self) -> RssView {
        RssView {
            origin: self.origin@,
            last_updated: self.last_updated@,
            items: items_view(self.items@),
        }
    }
}

/// Whether one of the items has the link `link`. Two items without a link
/// count as having the same link.
pub open spec fn link_known(items: Seq<ItemView>, link: Option<Seq<char>>) -> bool {
    exists|i: int| 0 <= i < items.len() && (#[trigger] items[i]).link == link
}

/// Whether an item's link is new to `items`.
pub open spec fn new_to(items: Seq<ItemView>) -> spec_fn(ItemView) -> bool {
    |item: ItemView| !link_known(items, item.link)
}

/// The items after a delivery: those that were known, followed by the
/// delivered items whose link was not known, in the order of the delivery.
pub open spec fn with_new_items(items: Seq<ItemView>, delivered: Seq<ItemView>) -> Seq<
    ItemView,
> {
    items + delivered.filter(new_to(items))
}

/// The channel after its source was read again: unchanged where the source
/// was not built anew, and else with the new time and the new items.
pub open spec fn updated(rss: RssView, last_build_date: Seq<char>, delivered: Seq<ItemView>)
    -> RssView {
    if last_build_date != rss.last_updated {
        RssView {
            origin: rss.origin,
            last_updated: last_build_date,
            items: with_new_items(rss.items, delivered),
        }
    } else {
        rss
    }
}

/// What the document of a source holds, once it was read: the time at which
/// the channel was last built, if the channel says so, and its items.
#[derive(Debug)]
pub struct Document {
    pub last_build_date: Option<String>,
    pub items: Vec<Item>,
}

/// A document, as plain values.
pub struct DocumentView {
    pub last_build_date: Option<Seq<char>>,
    pub items: Seq<ItemView>,
}

impl View for Document {
    type V = DocumentView;

    open spec fn view(&self) -> DocumentView {
        DocumentView {
            last_build_date: opt_view(self.last_build_date),
            items: items_view(self.items@),
        }
    }
}

/// The channel that is followed from a document on: none where the document
/// does not say when the channel was built.
pub open spec fn built(document: DocumentView, origin: OriginView) -> Result<RssView, RssError> {
    match document.last_build_date {
        Some(date) => Ok(RssView { origin, last_updated: date, items: document.items }),
        None => Err(RssError::NoBuildDate),
    }
}

/// A channel or the reason why there is none, as plain values.
pub open spec fn built_view(r: Result<Rss, RssError>) -> Result<RssView, RssError> {
    match r {
        Ok(rss) => Ok(rss@),
        Err(e) => Err(e),
    }
}

/// How taking in a document ends: well, or with the reason why the document
/// cannot be taken in.
pub open spec fn sync_outcome(document: DocumentView) -> Result<(), RssError> {
    match document.last_build_date {
        Some(_) => Ok(()),
        None => Err(RssError::NoBuildDate),
    }
}

/// The channel after the document that its source holds now was taken in:
/// up to date with what the document holds, or as it was where the document
/// does not say when the channel was built.
pub open spec fn after_sync(rss: RssView, document: DocumentView) -> RssView {
    match document.last_build_date {
        Some(date) => updated(rss, date, document.items),
        None => rss,
    }
}

impl Rss {
    /// A channel that is followed from now on, with the items that its
    /// source holds at this time.
    pub fn new(origin: Origin, last_build_date: String, items: Vec<Item>) -> (r: Rss)
        ensures
            r@ == (RssView {
                origin: origin@,
                last_updated: last_build_date@,
                items: items_view(items@),
            }),
    {
        Rss { origin, last_updated: last_build_date, items }
    }

    /// Starts to follow the channel that a document holds. A document that
    /// does not say when the channel was built gives `RssError::NoBuildDate`.
    pub fn build(document: Document, origin: Origin) -> (r: Result<Rss, RssError>)
        ensures
            built_view(r) == built(document@, origin@),
    {
        match document.last_build_date {
            Some(last_build_date) => Ok(Rss::new(origin, last_build_date, document.items)),
            None => Err(RssError::NoBuildDate),
        }
    }

    /// Takes in the document that the source holds now, as `update` does.
    /// A document that does not say when the channel was built gives
    /// `RssError::NoBuildDate`, and changes nothing.
    pub fn sync(&mut self, document: &Document) -> (r: Result<(), RssError>)
        ensures
            r == sync_outcome(document@),
            final(self)@ == after_sync(old(self)@, document@),
    {
        match &document.last_build_date {
            Some(last_build_date) => {
                self.update(last_build_date.clone(), &document.items);
                Ok(())
            },
            None => Err(RssError::NoBuildDate),
        }
    }

    /// Takes in what the source holds now. Where the source was not built
    /// anew since the last time, nothing changes. Else the delivered items
    /// whose link is new are appended, and the time is noted.
    pub fn update(&mut self, last_build_date: String, delivered: &Vec<Item>)
        ensures
            final(self)@ == updated(old(self)@, last_build_date@, items_view(delivered@)),
    {
        if last_build_date != self.last_updated {
            self.sync_items(delivered);
            self.last_updated = last_build_date;
        }
    }

    /// Appends the delivered items whose link is new to the channel.
    fn sync_items(&mut self, delivered: &Vec<Item>)
        ensures
            final(self)@.items == with_new_items(old(self)@.items, items_view(delivered@)),
            final(self)@.origin == old(self)@.origin,
            final(self)@.last_updated == old(self)@.last_updated,
    {
        let ghost before = self@.items;
        let ghost all = items_view(delivered@);
        let known = self.items.len();
        let mut i: usize = 0;
        proof {
            reveal(Seq::filter);
            assert(all.take(0) =~= Seq::<ItemView>::empty());
            assert(items_view(self.items@) =~= before + all.take(0).filter(new_to(before)));
        }
        while i < delivered.len()
            invariant
                i <= delivered.len(),
                known == before.len(),
                known <= self.items.len(),
                all == items_view(delivered@),
                self@.origin == old(self)@.origin,
                self@.last_updated == old(self)@.last_updated,
                items_view(self.items@).take(known as int) == before,
                items_view(self.items@) == before + all.take(i as int).filter(new_to(before)),
            decreases delivered.len() - i,
        {
            proof {
                reveal(Seq::filter);
                let next = all.take(i + 1);
                assert(next.drop_last() =~= all.take(i as int));
                assert(next.last() == delivered[i as int]@);
            }
            if !has_link(&self.items, known, &delivered[i].link) {
                let ghost held = items_view(self.items@);
                self.items.push(delivered[i].clone());
                proof {
                    assert(items_view(self.items@) =~= held.push(delivered[i as int]@));
                    assert(items_view(self.items@).take(known as int) =~= before);
                    assert(before + all.take(i as int).filter(new_to(before)).push(
                        delivered[i as int]@,
                    ) =~= held.push(delivered[i as int]@));
                }
            }
            i += 1;
        }
        assert(all.take(delivered.len() as int) =~= all);
    }
}

impl Clone for Rss {
    fn clone(&self) -> (r: Rss)
        ensures
            r@ == self@,
    {
        Rss {
            origin: self.origin.clone(),
            last_updated: self.last_updated.clone(),
            items: copy_items(&self.items),
        }
    }
}

impl PartialEq for Rss {
    fn eq(&self, other: &Rss) -> (r: bool) {
        self.origin.same_as(&other.origin) && self.last_updated == other.last_updated
            && same_items(&self.items, &other.items)
    }
}

impl vstd::std_specs::cmp::PartialEqSpecImpl for Rss {
    open spec fn obeys_eq_spec() -> bool {
        true
    }

    open spec fn eq_spec(&self, other: &Rss) -> bool {
        self@ == other@
    }
}

/// Whether one of the first `known` items has the link `link`.
fn has_link(items: &Vec<Item>, known: usize, link: &Option<String>) -> (r: bool)
    requires
        known <= items.len(),
    ensures
        r == link_known(items_view(items@).take(known as int), opt_view(*link)),
{
    let ghost firsts = items_view(items@).take(known as int);
    let mut i: usize = 0;
    while i < known
        invariant
            i <= known <= items.len(),
            firsts == items_view(items@).take(known as int),
            forall|k: int| 0 <= k < i ==> (#[trigger] firsts[k]).link != opt_view(*link),
        decreases known - i,
    {
        if same_opt(&items[i].link, link) {
            assert(firsts[i as int].link == opt_view(*link));
            return true;
        }
        i += 1;
    }
    false
}

} // verus!
