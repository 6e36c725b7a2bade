//! Several followed channels under names of the caller's choice, and the
//! news of all of them.

use vstd::prelude::*;
use vstd::string::StringExecFns;
use crate::channel::{after_sync, items_view, sync_outcome, Document, DocumentView, Item,
    ItemView, Rss, RssError, RssView};

verus! {

/// A channel under its name, as plain values.
pub struct NamedView {
    pub name: Seq<char>,
    pub rss: RssView,
}

/// The channels under their names, from the list of names and the list of
/// channels.
pub open spec fn paired(names: Seq<String>, channels: Seq<Rss>) -> Seq<NamedView> {
    Seq::new(names.len(), |i: int| NamedView { name: names[i]@, rss: channels[i]@ })
}

/// The document that was fetched for the channel of a name.
#[derive(Debug)]
pub struct Delivery {
    /// The name under which the channel is followed.
    pub name: String,
    /// What the document holds.
    pub document: Document,
}

/// A delivery, as plain values.
pub struct DeliveryView {
    pub name: Seq<char>,
    pub document: DocumentView,
}

impl View for Delivery {
    type V = DeliveryView;

    open spec fn view(&self) -> DeliveryView {
        DeliveryView { name: self.name@, document: self.document@ }
    }
}

/// The views of a list of deliveries, in order.
pub open spec fn deliveries_view(deliveries: Seq<Delivery>) -> Seq<DeliveryView> {
    Seq::new(deliveries.len(), |i: int| deliveries[i]@)
}

/// The place of the first channel with a name, or the number of channels
/// where there is none.
pub open spec fn place_of(feeds: Seq<NamedView>, name: Seq<char>) -> int
    decreases feeds.len(),
{
    if feeds.len() == 0 {
        0
    } else if feeds[0].name == name {
        0
    } else {
        1 + place_of(feeds.drop_first(), name)
    }
}

/// The channel of a name, if there is one.
pub open spec fn feed_named(feeds: Seq<NamedView>, name: Seq<char>) -> Option<RssView> {
    if place_of(feeds, name) < feeds.len() {
        Some(feeds[place_of(feeds, name)].rss)
    } else {
        None
    }
}

/// The channels after one was added under a name: it takes the place of the
/// channel that had the name, or the last place where the name is new.
pub open spec fn with_feed(feeds: Seq<NamedView>, name: Seq<char>, rss: RssView) -> Seq<
    NamedView,
> {
    if place_of(feeds, name) < feeds.len() {
        feeds.update(place_of(feeds, name), NamedView { name, rss })
    } else {
        feeds.push(NamedView { name, rss })
    }
}

/// The items of all channels: channel after channel in their order, and
/// within a channel in its own order.
pub open spec fn all_items(feeds: Seq<NamedView>) -> Seq<ItemView>
    decreases feeds.len(),
{
    if feeds.len() == 0 {
        Seq::empty()
    } else {
        all_items(feeds.drop_last()) + feeds.last().rss.items
    }
}

/// The names of a list of channels, in order.
pub open spec fn names_of(feeds: Seq<NamedView>) -> Seq<Seq<char>> {
    Seq::new(feeds.len(), |i: int| feeds[i].name)
}

/// The place that `place_of` gives is within the list or just past it; no
/// channel before it has the name, and the channel at it has the name.
pub proof fn lemma_place_of(feeds: Seq<NamedView>, name: Seq<char>)
    ensures
        0 <= place_of(feeds, name) <= feeds.len(),
        forall|i: int| 0 <= i < place_of(feeds, name) ==> (#[trigger] feeds[i]).name != name,
        place_of(feeds, name) < feeds.len() ==> feeds[place_of(feeds, name)].name == name,
    decreases feeds.len(),
{
    if feeds.len() > 0 && feeds[0].name != name {
        let rest = feeds.drop_first();
        lemma_place_of(rest, name);
        assert forall|i: int| 0 <= i < place_of(feeds, name) implies (#[trigger] feeds[i]).name
            != name by {
            if i > 0 {
                assert(rest[i - 1] == feeds[i]);
            }
        }
    }
}

/// The first channel with a name is where no channel before it has the
/// name.
pub proof fn lemma_place_is(feeds: Seq<NamedView>, name: Seq<char>, p: int)
    requires
        0 <= p <= feeds.len(),
        forall|i: int| 0 <= i < p ==> (#[trigger] feeds[i]).name != name,
        p < feeds.len() ==> feeds[p].name == name,
    ensures
        place_of(feeds, name) == p,
{
    lemma_place_of(feeds, name);
    let q = place_of(feeds, name);
    if q < p {
        assert(feeds[q].name != name);
    }
    if p < q {
        assert(feeds[p].name != name);
    }
}

/// A channel that was added is found under its name, and the channels of
/// other names are found as before.
pub proof fn lemma_added_feed(
    feeds: Seq<NamedView>,
    name: Seq<char>,
    rss: RssView,
    other: Seq<char>,
)
    ensures
        feed_named(with_feed(feeds, name, rss), name) == Some(rss),
        other != name ==> feed_named(with_feed(feeds, name, rss), other) == feed_named(
            feeds,
            other,
        ),
{
    lemma_place_of(feeds, name);
    lemma_place_of(feeds, other);
    let after = with_feed(feeds, name, rss);
    let p = place_of(feeds, name);
    lemma_place_is(after, name, p);
    if other != name {
        let q = place_of(feeds, other);
        assert forall|i: int| 0 <= i < q implies (#[trigger] after[i]).name != other by {
            if i < feeds.len() && i != p {
                assert(after[i] == feeds[i]);
            }
        }
        if q < feeds.len() {
            assert(q != p);
            assert(after[q] == feeds[q]);
            lemma_place_is(after, other, q);
        } else {
            lemma_place_is(after, other, after.len() as int);
        }
    }
}

/// Changing a channel in place changes no name.
pub proof fn lemma_update_names(feeds: Seq<NamedView>, p: int, rss: RssView)
    requires
        0 <= p < feeds.len(),
    ensures
        names_of(feeds.update(p, NamedView { name: feeds[p].name, rss })) == names_of(feeds),
{
    assert(names_of(feeds.update(p, NamedView { name: feeds[p].name, rss })) =~= names_of(
        feeds,
    ));
}

/// Adding a channel under a name keeps every name unique.
pub proof fn lemma_with_feed_names(feeds: Seq<NamedView>, name: Seq<char>, rss: RssView)
    requires
        names_of(feeds).no_duplicates(),
    ensures
        names_of(with_feed(feeds, name, rss)).no_duplicates(),
{
    lemma_place_of(feeds, name);
    let p = place_of(feeds, name);
    let after = with_feed(feeds, name, rss);
    if p < feeds.len() {
        assert(names_of(after) =~= names_of(feeds));
    } else {
        assert(names_of(after) =~= names_of(feeds).push(name));
        assert forall|i: int| 0 <= i < feeds.len() implies names_of(feeds)[i] != name by {
            assert(feeds[i].name != name);
        }
    }
}

/// The followed channels, and the news that were gathered from them.
#[derive(Debug)]
pub struct RssManager {
    names: Vec<String>,
    channels: Vec<Rss>,
    all_news: Vec<Item>,
}

/// The state of the manager, as plain values.
pub struct RssManagerView {
    /// The channels under their names, in the order in which the names were
    /// first used.
    pub rss_feeds: Seq<NamedView>,
    pub all_news: Seq<ItemView>,
}

impl RssManagerView {
    /// No name is used twice.
    pub open spec fn wf(self) -> bool {
        names_of(self.rss_feeds).no_duplicates()
    }
}

impl View for RssManager {
    type V = RssManagerView;

    closed spec fn view(&self) -> RssManagerView {
        RssManagerView {
            rss_feeds: paired(self.names@, self.channels@),
            all_news: items_view(self.all_news@),
        }
    }
}

/// The place of the first of the names that is `name`, or the number of
/// names where there is none.
fn find_named(names: &Vec<String>, name: &String) -> (r: usize)
    ensures
        r <= names.len(),
        forall|k: int| 0 <= k < r ==> (#[trigger] names[k])@ != name@,
        r < names.len() ==> names[r as int]@ == name@,
{
    let mut i: usize = 0;
    while i < names.len()
        invariant
            i <= names.len(),
            forall|k: int| 0 <= k < i ==> (#[trigger] names[k])@ != name@,
        decreases names.len() - i,
    {
        if names[i] == *name {
            return i;
        }
        i += 1;
    }
    i
}

/// The place of the first document for a name, if there is one.
fn find_delivery(deliveries: &Vec<Delivery>, name: &String) -> (r: Option<usize>)
    ensures
        match r {
            Some(j) => j < deliveries.len() && document_for(deliveries_view(deliveries@), name@)
                == Some(deliveries[j as int].document@),
            None => document_for(deliveries_view(deliveries@), name@) is None,
        },
{
    let ghost all = deliveries_view(deliveries@);
    let mut i: usize = 0;
    assert(all.skip(0) =~= all);
    while i < deliveries.len()
        invariant
            i <= deliveries.len(),
            all == deliveries_view(deliveries@),
            document_for(all, name@) == document_for(all.skip(i as int), name@),
        decreases deliveries.len() - i,
    {
        assert(all.skip(i as int)[0] == deliveries[i as int]@);
        if deliveries[i].name == *name {
            return Some(i);
        }
        assert(all.skip(i as int).drop_first() =~= all.skip(i + 1));
        i += 1;
    }
    None
}

impl RssManager {
    /// Every name has its channel, and no name is used twice.
    #[verifier::type_invariant]
    pub closed spec fn valid(self) -> bool {
        &&& self.names.len() == self.channels.len()
        &&& self.names.deep_view().no_duplicates()
    }

    /// The names of the channels are the names that are held.
    proof fn lemma_names(self)
        ensures
            names_of(self@.rss_feeds) == self.names.deep_view(),
    {
        assert(names_of(self@.rss_feeds) =~= self.names.deep_view());
    }

    /// A manager that follows no channel.
    pub fn new() -> (r: RssManager)
        ensures
            r@.rss_feeds.len() == 0,
            r@.all_news.len() == 0,
            r@.wf(),
    {
        RssManager { names: Vec::new(), channels: Vec::new(), all_news: Vec::new() }
    }

    /// Follows a channel under a name. A channel that was followed under
    /// that name is replaced.
    pub fn add_feed(&mut self, name: String, rss: Rss)
        ensures
            final(self)@.rss_feeds == with_feed(old(self)@.rss_feeds, name@, rss@),
            final(self)@.all_news == old(self)@.all_news,
            final(self)@.wf(),
    {
        proof {
            use_type_invariant(&*self);
            self.lemma_names();
        }
        let ghost before = self@.rss_feeds;
        let mut taken = RssManager::new();
        std::mem::swap(self, &mut taken);
        let RssManager { mut names, mut channels, all_news } = taken;
        let p = find_named(&names, &name);
        proof {
            lemma_place_is(before, name@, p as int);
            lemma_with_feed_names(before, name@, rss@);
        }
        if p < names.len() {
            channels[p] = rss;
            assert(paired(names@, channels@) =~= before.update(
                p as int,
                NamedView { name: name@, rss: rss@ },
            ));
        } else {
            names.push(name);
            channels.push(rss);
            assert(paired(names@, channels@) =~= before.push(
                NamedView { name: name@, rss: rss@ },
            ));
        }
        assert(names.deep_view() =~= names_of(paired(names@, channels@)));
        *self = RssManager { names, channels, all_news };
    }

    /// The channel that is followed under a name.
    pub fn get_feed(&self, name: &str) -> (r: Option<&Rss>)
        ensures
            match r {
                Some(rss) => feed_named(self@.rss_feeds, name@) == Some(rss@),
                None => feed_named(self@.rss_feeds, name@) is None,
            },
    {
        proof {
            use_type_invariant(self);
        }
        let key = String::from_str(name);
        let p = find_named(&self.names, &key);
        proof {
            lemma_place_is(self@.rss_feeds, name@, p as int);
        }
        if p < self.names.len() {
            Some(&self.channels[p])
        } else {
            None
        }
    }

    /// The channel that is followed under a name, to be changed in place.
    /// What the caller writes through the reference is what the manager
    /// holds under the name afterwards; nothing else changes.
    pub fn get_feed_mut(&mut self, name: &str) -> (r: Option<&mut Rss>)
        ensures
            match r {
                Some(rss) => {
                    &&& feed_named(old(self)@.rss_feeds, name@) == Some((*rss)@)
                    &&& final(self)@.rss_feeds == old(self)@.rss_feeds.update(
                        place_of(old(self)@.rss_feeds, name@),
                        NamedView { name: name@, rss: (*final(rss))@ },
                    )
                    &&& final(self)@.all_news == old(self)@.all_news
                },
                None => feed_named(old(self)@.rss_feeds, name@) is None && final(self)@ == old(
                    self,
                )@,
            },
    {
        proof {
            use_type_invariant(&*self);
        }
        let key = String::from_str(name);
        let p = find_named(&self.names, &key);
        proof {
            lemma_place_is(self@.rss_feeds, name@, p as int);
        }
        if p < self.names.len() {
            Some(&mut self.channels[p])
        } else {
            None
        }
    }

    /// Brings the channels up to date with the documents that were fetched
    /// for them, channel after channel. A channel for which there is no
    /// document is left as it is. The first document that cannot be taken
    /// in ends the round with its error: the channels before it are up to
    /// date, that one and those after it are as they were. The names and
    /// the news do not change.
    pub fn sync_all(&mut self, deliveries: &Vec<Delivery>) -> (r: Result<(), RssError>)
        ensures
            final(self)@.rss_feeds == after_round(old(self)@.rss_feeds, deliveries_view(deliveries@)),
            final(self)@.all_news == old(self)@.all_news,
            r == round_outcome(old(self)@.rss_feeds, deliveries_view(deliveries@)),
            final(self)@.wf(),
    {
        proof {
            use_type_invariant(&*self);
        }
        let ghost before = self@.rss_feeds;
        let ghost docs = deliveries_view(deliveries@);
        let mut i: usize = 0;
        proof {
            self.lemma_names();
        }
        while i < self.names.len()
            invariant
                i <= self.names.len(),
                self.names.deep_view().no_duplicates(),
                self.names.len() == before.len(),
                self.channels.len() == before.len(),
                before == old(self)@.rss_feeds,
                docs == deliveries_view(deliveries@),
                self@.all_news == old(self)@.all_news,
                names_of(before).no_duplicates(),
                forall|k: int| 0 <= k < before.len() ==> (#[trigger] self.names[k])@ == before[k].name,
                forall|k: int|
                    0 <= k < i ==> outcome_of(#[trigger] before[k], docs) is Ok
                        && self.channels[k]@ == brought_up(before[k], docs).rss,
                forall|k: int| i <= k < before.len() ==> self.channels[k]@ == (#[trigger] before[k]).rss,
            decreases self.names.len() - i,
        {
            match find_delivery(deliveries, &self.names[i]) {
                Some(j) => {
                    let outcome = self.channels[i].sync(&deliveries[j].document);
                    match outcome {
                        Ok(()) => {},
                        Err(e) => {
                            proof {
                                lemma_stop_is(before, docs, i as int);
                                assert(self@.rss_feeds =~= after_round(before, docs));
                                assert(names_of(self@.rss_feeds) =~= names_of(before));
                            }
                            return Err(e);
                        },
                    }
                },
                None => {},
            }
            i += 1;
        }
        proof {
            lemma_stop_is(before, docs, before.len() as int);
            assert(self@.rss_feeds =~= after_round(before, docs));
            assert(names_of(self@.rss_feeds) =~= names_of(before));
        }
        Ok(())
    }

    /// The names under which channels are followed, in the order in which
    /// they were first used. No name occurs twice.
    pub fn names(&self) -> (r: &Vec<String>)
        ensures
            r.deep_view() == names_of(self@.rss_feeds),
            self@.wf(),
    {
        proof {
            use_type_invariant(self);
            assert(self.names.deep_view() =~= names_of(self@.rss_feeds));
        }
        &self.names
    }

    /// The followed channels, each at the place of its name.
    pub fn channels(&self) -> (r: &Vec<Rss>)
        ensures
            r.len() == self@.rss_feeds.len(),
            forall|i: int| 0 <= i < r.len() ==> (#[trigger] r[i])@ == self@.rss_feeds[i].rss,
    {
        proof {
            use_type_invariant(self);
        }
        &self.channels
    }

    /// The news that were gathered last.
    pub fn all_news(&self) -> (r: &Vec<Item>)
        ensures
            items_view(r@) == self@.all_news,
    {
        &self.all_news
    }

    /// Gathers the items of all channels into the news, in place of what the
    /// news held.
    pub fn update_all_news(&mut self)
        ensures
            final(self)@.rss_feeds == old(self)@.rss_feeds,
            final(self)@.all_news == all_items(old(self)@.rss_feeds),
            final(self)@.wf(),
    {
        proof {
            use_type_invariant(&*self);
        }
        let ghost feeds = self@.rss_feeds;
        let mut news: Vec<Item> = Vec::new();
        let mut i: usize = 0;
        assert(feeds.take(0) =~= Seq::<NamedView>::empty());
        assert(items_view(news@) =~= all_items(feeds.take(0)));
        while i < self.channels.len()
            invariant
                i <= self.channels.len(),
                self.channels.len() == feeds.len(),
                self@.rss_feeds == feeds,
                forall|k: int| 0 <= k < feeds.len() ==> (#[trigger] self.channels[k])@ == feeds[k].rss,
                items_view(news@) == all_items(feeds.take(i as int)),
            decreases self.channels.len() - i,
        {
            let items = &self.channels[i].items;
            let ghost gathered = items_view(news@);
            proof {
                let next = feeds.take(i + 1);
                assert(next.drop_last() =~= feeds.take(i as int));
                assert(next.last().rss == self.channels[i as int]@);
            }
            let mut j: usize = 0;
            while j < items.len()
                invariant
                    j <= items.len(),
                    items_view(news@) == gathered + items_view(items@).take(j as int),
                decreases items.len() - j,
            {
                let ghost held = items_view(news@);
                news.push(items[j].clone());
                assert(items_view(news@) =~= held.push(items[j as int]@));
                assert(items_view(items@).take(j + 1) =~= items_view(items@).take(j as int).push(
                    items[j as int]@,
                ));
                j += 1;
            }
            assert(items_view(items@).take(items.len() as int) =~= items_view(items@));
            i += 1;
        }
        assert(feeds.take(self.channels.len() as int) =~= feeds);
        self.all_news = news;
        proof {
            self.lemma_names();
        }
    }
}

/// The document that was fetched for the channel of a name: that of the
/// first delivery for that name, if there is one.
pub open spec fn document_for(deliveries: Seq<DeliveryView>, name: Seq<char>) -> Option<
    DocumentView,
>
    decreases deliveries.len(),
{
    if deliveries.len() == 0 {
        None
    } else if deliveries[0].name == name {
        Some(deliveries[0].document)
    } else {
        document_for(deliveries.drop_first(), name)
    }
}

/// How bringing one channel up to date ends: well where nothing was fetched
/// for it, and else as taking in its document ends.
pub open spec fn outcome_of(feed: NamedView, deliveries: Seq<DeliveryView>) -> Result<(), RssError> {
    match document_for(deliveries, feed.name) {
        Some(document) => sync_outcome(document),
        None => Ok(()),
    }
}

/// One channel after it was brought up to date with the document that was
/// fetched for it; as it was where nothing was fetched, or nothing that can
/// be taken in.
pub open spec fn brought_up(feed: NamedView, deliveries: Seq<DeliveryView>) -> NamedView {
    match document_for(deliveries, feed.name) {
        Some(document) => NamedView { name: feed.name, rss: after_sync(feed.rss, document) },
        None => feed,
    }
}

/// The place of the first channel whose document cannot be taken in, or the
/// number of channels where every document can be taken in.
pub open spec fn stop_of(feeds: Seq<NamedView>, deliveries: Seq<DeliveryView>) -> int
    decreases feeds.len(),
{
    if feeds.len() == 0 {
        0
    } else if outcome_of(feeds[0], deliveries) is Err {
        0
    } else {
        1 + stop_of(feeds.drop_first(), deliveries)
    }
}

/// How a round ends: with the error of the first document that cannot be
/// taken in, or well.
pub open spec fn round_outcome(feeds: Seq<NamedView>, deliveries: Seq<DeliveryView>) -> Result<
    (),
    RssError,
> {
    if stop_of(feeds, deliveries) < feeds.len() {
        outcome_of(feeds[stop_of(feeds, deliveries)], deliveries)
    } else {
        Ok(())
    }
}

/// The channels after a round: those before the first document that cannot
/// be taken in are up to date, the others are as they were.
pub open spec fn after_round(feeds: Seq<NamedView>, deliveries: Seq<DeliveryView>) -> Seq<
    NamedView,
> {
    Seq::new(
        feeds.len(),
        |i: int|
            if i < stop_of(feeds, deliveries) {
                brought_up(feeds[i], deliveries)
            } else {
                feeds[i]
            },
    )
}

/// A round stops at the first channel whose document cannot be taken in.
pub proof fn lemma_stop_is(feeds: Seq<NamedView>, deliveries: Seq<DeliveryView>, p: int)
    requires
        0 <= p <= feeds.len(),
        forall|i: int| 0 <= i < p ==> outcome_of(#[trigger] feeds[i], deliveries) is Ok,
        p < feeds.len() ==> outcome_of(feeds[p], deliveries) is Err,
    ensures
        stop_of(feeds, deliveries) == p,
    decreases feeds.len(),
{
    if p > 0 {
        let rest = feeds.drop_first();
        assert(outcome_of(feeds[0], deliveries) is Ok);
        assert forall|i: int| 0 <= i < p - 1 implies outcome_of(
            #[trigger] rest[i],
            deliveries,
        ) is Ok by {
            assert(rest[i] == feeds[i + 1]);
        }
        lemma_stop_is(rest, deliveries, p - 1);
    }
}

/// A round changes no name, and leaves a channel for which nothing was
/// fetched as it was.
pub proof fn lemma_round_keeps(feeds: Seq<NamedView>, deliveries: Seq<DeliveryView>, i: int)
    requires
        0 <= i < feeds.len(),
    ensures
        after_round(feeds, deliveries).len() == feeds.len(),
        after_round(feeds, deliveries)[i].name == feeds[i].name,
        document_for(deliveries, feeds[i].name) is None ==> after_round(feeds, deliveries)[i]
            == feeds[i],
{
}

} // verus!
