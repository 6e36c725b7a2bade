//! The feed manager: the registry of tracked feeds, the queue of entries that
//! await the reader's judgement, and the log of the judgements made.

use vstd::prelude::*;
use vstd::string::StringExecFns;
use crate::dedup::{lemma_merged_concat, lemma_merged_contains, lemma_merged_distinct,
    lemma_merged_len, merged};
use crate::entry::{entries_view, placeholder_snapshot, Entry, EntryView, Snapshot, SnapshotView};

verus! {

/// Why a feed could not be refreshed.
#[derive(Debug, Clone, Copy, PartialEq, Eq, Structural)]
pub enum FetchError {
    /// The source could not be reached or did not answer.
    Network,
    /// What the source sent is no feed.
    Parse,
}

/// One tracked feed: its source and the snapshot that was fetched last.
#[derive(Debug)]
pub struct Slot {
    url: String,
    feed: Snapshot,
}

/// A tracked feed, as plain values.
pub struct SlotView {
    pub url: Seq<char>,
    pub feed: SnapshotView,
}

impl View for Slot {
    type V = SlotView;

    closed spec fn view(&self) -> SlotView {
        SlotView { url: self.url@, feed: self.feed@ }
    }
}

impl Slot {
    /// The address of the source.
    pub fn url(&self) -> (r: &String)
        ensures
            r@ == self@.url,
    {
        &self.url
    }

    /// The snapshot that was fetched last.
    pub fn feed(&self) -> (r: &Snapshot)
        ensures
            r@ == self@.feed,
    {
        &self.feed
    }
}

/// An entry with the reader's judgement.
#[derive(Debug)]
pub struct JudgedEntry {
    pub entry: Entry,
    pub liked: bool,
}

/// A judged entry, as plain values.
pub struct JudgedView {
    pub entry: EntryView,
    pub liked: bool,
}

impl View for JudgedEntry {
    type V = JudgedView;

    open spec fn view(&self) -> JudgedView {
        JudgedView { entry: self.entry@, liked: self.liked }
    }
}

/// The views of a list of slots, in order.
pub open spec fn slots_view(slots: Seq<Slot>) -> Seq<SlotView> {
    Seq::new(slots.len(), |i: int| slots[i]@)
}

/// The views of a list of judged entries, in order.
pub open spec fn judged_view(log: Seq<JudgedEntry>) -> Seq<JudgedView> {
    Seq::new(log.len(), |i: int| log[i]@)
}

/// The sources of a list of slots, in order.
pub open spec fn urls_of(feeds: Seq<SlotView>) -> Seq<Seq<char>> {
    Seq::new(feeds.len(), |i: int| feeds[i].url)
}

/// The state of a manager, as plain values.
pub struct ManagerView {
    /// The tracked feeds, in the order in which they were registered.
    pub feeds: Seq<SlotView>,
    /// The entries that await a decision; the last one is shown next.
    pub to_see: Seq<EntryView>,
    /// The decisions made, oldest first.
    pub already_seen: Seq<JudgedView>,
}

/// Whether the log holds a decision on an entry.
pub open spec fn judged(log: Seq<JudgedView>, e: EntryView) -> bool {
    exists|i: int| 0 <= i < log.len() && (#[trigger] log[i]).entry == e
}

/// Whether the log holds no decision on an entry.
pub open spec fn unjudged(log: Seq<JudgedView>) -> spec_fn(EntryView) -> bool {
    |e: EntryView| !judged(log, e)
}

/// The entries of a delivery that may enter the queue: those on which the
/// log holds no decision, in the order of the delivery.
pub open spec fn admitted(fresh: Seq<EntryView>, log: Seq<JudgedView>) -> Seq<EntryView> {
    fresh.filter(unjudged(log))
}

impl ManagerView {
    /// No source is tracked twice, no entry is queued twice, and no entry
    /// that was judged is queued.
    pub open spec fn wf(self) -> bool {
        &&& urls_of(self.feeds).no_duplicates()
        &&& self.to_see.no_duplicates()
        &&& forall|i: int|
            0 <= i < self.to_see.len() ==> !judged(self.already_seen, #[trigger] self.to_see[i])
    }
}

/// The snapshot that is held for a source, if the source is tracked.
pub open spec fn lookup(feeds: Seq<SlotView>, url: Seq<char>) -> Option<SnapshotView>
    decreases feeds.len(),
{
    if feeds.len() == 0 {
        None
    } else if feeds.last().url == url {
        Some(feeds.last().feed)
    } else {
        lookup(feeds.drop_last(), url)
    }
}

/// The registry after `url` was registered: unchanged where the source is
/// tracked already, else with one more slot that holds the placeholder.
pub open spec fn registered(feeds: Seq<SlotView>, url: Seq<char>) -> Seq<SlotView> {
    if urls_of(feeds).contains(url) {
        feeds
    } else {
        feeds.push(SlotView { url, feed: placeholder_snapshot() })
    }
}

/// Whether a slot belongs to another source than `url`.
pub open spec fn other_than(url: Seq<char>) -> spec_fn(SlotView) -> bool {
    |slot: SlotView| slot.url != url
}

/// The registry without the slot of `url`.
pub open spec fn removed(feeds: Seq<SlotView>, url: Seq<char>) -> Seq<SlotView> {
    feeds.filter(other_than(url))
}

/// What fetching one source gave: a fresh snapshot, or the reason why there
/// is none.
#[derive(Debug)]
pub struct Fetched {
    pub url: String,
    pub outcome: Result<Snapshot, FetchError>,
}

/// The result of a fetch, as plain values.
pub struct FetchedView {
    pub url: Seq<char>,
    pub outcome: Result<SnapshotView, FetchError>,
}

impl View for Fetched {
    type V = FetchedView;

    open spec fn view(&self) -> FetchedView {
        FetchedView {
            url: self.url@,
            outcome: match self.outcome {
                Ok(feed) => Ok(feed@),
                Err(e) => Err(e),
            },
        }
    }
}

/// The views of a list of results, in order.
pub open spec fn fetched_view(fetched: Seq<Fetched>) -> Seq<FetchedView> {
    Seq::new(fetched.len(), |i: int| fetched[i]@)
}

/// What was fetched for a source: the first result for it, if there is one.
pub open spec fn outcome_for(fetched: Seq<FetchedView>, url: Seq<char>) -> Option<
    Result<SnapshotView, FetchError>,
>
    decreases fetched.len(),
{
    if fetched.len() == 0 {
        None
    } else if fetched[0].url == url {
        Some(fetched[0].outcome)
    } else {
        outcome_for(fetched.drop_first(), url)
    }
}

/// The entries that a source has newly delivered: those of its fresh
/// snapshot, and none where the fetch failed or was not made.
pub open spec fn delivered(fetched: Seq<FetchedView>, url: Seq<char>) -> Seq<EntryView> {
    match outcome_for(fetched, url) {
        Some(Ok(feed)) => feed.entries,
        _ => Seq::empty(),
    }
}

/// A slot after a round of fetches: with the fresh snapshot where there is
/// one, and with the snapshot it had otherwise.
pub open spec fn refreshed(slot: SlotView, fetched: Seq<FetchedView>) -> SlotView {
    match outcome_for(fetched, slot.url) {
        Some(Ok(feed)) => SlotView { url: slot.url, feed },
        _ => slot,
    }
}

/// The entries of all fresh snapshots: feed after feed in the order of the
/// registry, and within a feed in its own order.
pub open spec fn fresh_entries(feeds: Seq<SlotView>, fetched: Seq<FetchedView>) -> Seq<
    EntryView,
>
    decreases feeds.len(),
{
    if feeds.len() == 0 {
        Seq::empty()
    } else {
        fresh_entries(feeds.drop_last(), fetched) + delivered(fetched, feeds.last().url)
    }
}

/// The tracked sources whose fetch failed, in the order of the registry.
pub open spec fn failed_urls(feeds: Seq<SlotView>, fetched: Seq<FetchedView>) -> Seq<
    Seq<char>,
>
    decreases feeds.len(),
{
    if feeds.len() == 0 {
        Seq::empty()
    } else {
        let before = failed_urls(feeds.drop_last(), fetched);
        match outcome_for(fetched, feeds.last().url) {
            Some(Err(_)) => before.push(feeds.last().url),
            _ => before,
        }
    }
}

/// The state after a round of fetches was merged in: every slot refreshed,
/// the fresh entries that were neither queued nor judged appended to the
/// queue, each once, and the log untouched.
pub open spec fn synced(m: ManagerView, fetched: Seq<FetchedView>) -> ManagerView {
    ManagerView {
        feeds: Seq::new(m.feeds.len(), |i: int| refreshed(m.feeds[i], fetched)),
        to_see: merged(m.to_see, admitted(fresh_entries(m.feeds, fetched), m.already_seen)),
        already_seen: m.already_seen,
    }
}

/// The feed manager.
#[derive(Debug)]
pub struct FeedManager {
    feeds: Vec<Slot>,
    to_see: Vec<Entry>,
    already_seen: Vec<JudgedEntry>,
}

impl View for FeedManager {
    type V = ManagerView;

    closed spec fn view(&self) -> ManagerView {
        ManagerView {
            feeds: slots_view(self.feeds@),
            to_see: entries_view(self.to_see@),
            already_seen: judged_view(self.already_seen@),
        }
    }
}

/// The place of a source among the slots, if it is tracked.
fn find_slot(feeds: &Vec<Slot>, url: &String) -> (r: Option<usize>)
    ensures
        match r {
            Some(p) => p < feeds.len() && feeds[p as int]@.url == url@,
            None => !urls_of(slots_view(feeds@)).contains(url@),
        },
{
    let mut i: usize = 0;
    while i < feeds.len()
        invariant
            i <= feeds.len(),
            forall|k: int| 0 <= k < i ==> feeds[k]@.url != url@,
        decreases feeds.len() - i,
    {
        if feeds[i].url == *url {
            return Some(i);
        }
        i += 1;
    }
    assert forall|k: int| 0 <= k < urls_of(slots_view(feeds@)).len() implies urls_of(
        slots_view(feeds@),
    )[k] != url@ by {}
    None
}

/// With no source tracked twice, the slot of a source is the one that
/// `lookup` finds.
pub proof fn lemma_lookup_at(feeds: Seq<SlotView>, p: int)
    requires
        0 <= p < feeds.len(),
        urls_of(feeds).no_duplicates(),
    ensures
        lookup(feeds, feeds[p].url) == Some(feeds[p].feed),
    decreases feeds.len(),
{
    if p < feeds.len() - 1 {
        assert(urls_of(feeds)[p] != urls_of(feeds)[feeds.len() - 1]);
        let init = feeds.drop_last();
        assert(urls_of(init) =~= urls_of(feeds).drop_last());
        lemma_lookup_at(init, p);
    }
}

/// A source that is not tracked has no snapshot.
pub proof fn lemma_lookup_untracked(feeds: Seq<SlotView>, url: Seq<char>)
    ensures
        lookup(feeds, url) is None <==> !urls_of(feeds).contains(url),
    decreases feeds.len(),
{
    if feeds.len() > 0 {
        let init = feeds.drop_last();
        lemma_lookup_untracked(init, url);
        assert(urls_of(init) =~= urls_of(feeds).drop_last());
        if urls_of(feeds).contains(url) {
            let i = choose|i: int| 0 <= i < feeds.len() && urls_of(feeds)[i] == url;
            if i < init.len() {
                assert(urls_of(init)[i] == url);
            }
        }
        if urls_of(init).contains(url) {
            let i = choose|i: int| 0 <= i < init.len() && urls_of(init)[i] == url;
            assert(urls_of(feeds)[i] == url);
        }
        if feeds.last().url == url {
            assert(urls_of(feeds)[feeds.len() - 1] == url);
        }
    }
}

/// Removing a source that is not tracked changes nothing.
pub proof fn lemma_remove_untracked(feeds: Seq<SlotView>, url: Seq<char>)
    requires
        !urls_of(feeds).contains(url),
    ensures
        removed(feeds, url) == feeds,
    decreases feeds.len(),
{
    reveal(Seq::filter);
    if feeds.len() > 0 {
        let init = feeds.drop_last();
        assert(urls_of(feeds)[feeds.len() - 1] == feeds.last().url);
        assert forall|i: int| 0 <= i < init.len() implies urls_of(init)[i] != url by {
            assert(urls_of(feeds)[i] == urls_of(init)[i]);
        }
        lemma_remove_untracked(init, url);
        assert(init.push(feeds.last()) =~= feeds);
    }
}

/// With no source tracked twice, removing a source takes out its one slot.
pub proof fn lemma_remove_at(feeds: Seq<SlotView>, p: int)
    requires
        0 <= p < feeds.len(),
        urls_of(feeds).no_duplicates(),
    ensures
        removed(feeds, feeds[p].url) == feeds.remove(p),
    decreases feeds.len(),
{
    reveal(Seq::filter);
    let url = feeds[p].url;
    let init = feeds.drop_last();
    assert(urls_of(init) =~= urls_of(feeds).drop_last());
    if p == feeds.len() - 1 {
        assert(!urls_of(init).contains(url)) by {
            if urls_of(init).contains(url) {
                let i = choose|i: int| 0 <= i < init.len() && urls_of(init)[i] == url;
                assert(urls_of(feeds)[i] == urls_of(feeds)[p]);
            }
        }
        lemma_remove_untracked(init, url);
        assert(feeds.remove(p) =~= init);
    } else {
        assert(urls_of(feeds)[p] != urls_of(feeds)[feeds.len() - 1]);
        lemma_remove_at(init, p);
        assert(init.remove(p).push(feeds.last()) =~= feeds.remove(p));
    }
}

/// After a source was removed it is not tracked, the other slots keep their
/// order, and no source is tracked twice if none was before.
pub proof fn lemma_removed_urls(feeds: Seq<SlotView>, url: Seq<char>)
    ensures
        !urls_of(removed(feeds, url)).contains(url),
        urls_of(feeds).no_duplicates() ==> urls_of(removed(feeds, url)).no_duplicates(),
        forall|other: Seq<char>|
            other != url ==> (urls_of(removed(feeds, url)).contains(other) <==> urls_of(
                feeds,
            ).contains(other)),
    decreases feeds.len(),
{
    reveal(Seq::filter);
    if feeds.len() > 0 {
        let init = feeds.drop_last();
        let last = feeds.last();
        lemma_removed_urls(init, url);
        let kept = removed(init, url);
        assert(urls_of(init) =~= urls_of(feeds).drop_last());
        assert forall|other: Seq<char>|
            urls_of(feeds).contains(other) <==> urls_of(init).contains(other) || other
                == last.url by {
            if urls_of(feeds).contains(other) {
                let i = choose|i: int| 0 <= i < feeds.len() && urls_of(feeds)[i] == other;
                if i < init.len() {
                    assert(urls_of(init)[i] == other);
                }
            }
            if urls_of(init).contains(other) {
                let i = choose|i: int| 0 <= i < init.len() && urls_of(init)[i] == other;
                assert(urls_of(feeds)[i] == other);
            }
            if other == last.url {
                assert(urls_of(feeds)[feeds.len() - 1] == other);
            }
        }
        if last.url != url {
            let all = kept.push(last);
            assert(urls_of(all) =~= urls_of(kept).push(last.url));
            assert forall|other: Seq<char>|
                urls_of(all).contains(other) <==> urls_of(kept).contains(other) || other
                    == last.url by {
                if urls_of(all).contains(other) {
                    let i = choose|i: int| 0 <= i < all.len() && urls_of(all)[i] == other;
                    if i < kept.len() {
                        assert(urls_of(kept)[i] == other);
                    }
                }
                if urls_of(kept).contains(other) {
                    let i = choose|i: int| 0 <= i < kept.len() && urls_of(kept)[i] == other;
                    assert(urls_of(all)[i] == other);
                }
                if other == last.url {
                    assert(urls_of(all)[all.len() - 1] == other);
                }
            }
            if urls_of(feeds).no_duplicates() {
                assert(!urls_of(init).contains(last.url)) by {
                    if urls_of(init).contains(last.url) {
                        let i = choose|i: int|
                            0 <= i < init.len() && urls_of(init)[i] == last.url;
                        assert(urls_of(feeds)[i] == urls_of(feeds)[feeds.len() - 1]);
                    }
                }
                assert(urls_of(init).no_duplicates());
                assert(!urls_of(kept).contains(last.url));
            }
        }
    }
}

/// The state after several rounds of fetches were merged in, one after the
/// other.
pub open spec fn synced_all(m: ManagerView, rounds: Seq<Seq<FetchedView>>) -> ManagerView
    decreases rounds.len(),
{
    if rounds.len() == 0 {
        m
    } else {
        synced(synced_all(m, rounds.drop_last()), rounds.last())
    }
}

/// The entries of the fresh snapshots of several rounds, round after round.
pub open spec fn fresh_of_rounds(feeds: Seq<SlotView>, rounds: Seq<Seq<FetchedView>>) -> Seq<
    EntryView,
>
    decreases rounds.len(),
{
    if rounds.len() == 0 {
        Seq::empty()
    } else {
        fresh_of_rounds(feeds, rounds.drop_last()) + fresh_entries(feeds, rounds.last())
    }
}

/// Registering a source twice is registering it once: the second time the
/// registry keeps its size and its slots, and the source is found with the
/// snapshot it had.
pub proof fn lemma_register_twice(feeds: Seq<SlotView>, url: Seq<char>)
    requires
        urls_of(feeds).no_duplicates(),
    ensures
        registered(registered(feeds, url), url) == registered(feeds, url),
        registered(registered(feeds, url), url).len() == registered(feeds, url).len(),
        lookup(registered(registered(feeds, url), url), url) == lookup(
            registered(feeds, url),
            url,
        ),
        lookup(registered(feeds, url), url) is Some,
        urls_of(registered(feeds, url)).no_duplicates(),
{
    let once = registered(feeds, url);
    if !urls_of(feeds).contains(url) {
        assert(urls_of(once) =~= urls_of(feeds).push(url));
        assert(urls_of(once)[once.len() - 1] == url);
    }
    assert(urls_of(once).contains(url));
    lemma_lookup_untracked(once, url);
}

/// Registering a source leaves the snapshots of the sources that were
/// tracked as they are.
pub proof fn lemma_register_keeps(feeds: Seq<SlotView>, url: Seq<char>, other: Seq<char>)
    requires
        urls_of(feeds).contains(other),
    ensures
        lookup(registered(feeds, url), other) == lookup(feeds, other),
{
    if !urls_of(feeds).contains(url) {
        assert(registered(feeds, url).drop_last() =~= feeds);
    }
}

/// After a source was removed it has no snapshot.
pub proof fn lemma_remove_then_lookup(feeds: Seq<SlotView>, url: Seq<char>)
    ensures
        lookup(removed(feeds, url), url) is None,
{
    lemma_removed_urls(feeds, url);
    lemma_lookup_untracked(removed(feeds, url), url);
}

/// Removing a source twice is removing it once.
pub proof fn lemma_remove_twice(feeds: Seq<SlotView>, url: Seq<char>)
    ensures
        removed(removed(feeds, url), url) == removed(feeds, url),
{
    lemma_removed_urls(feeds, url);
    lemma_remove_untracked(removed(feeds, url), url);
}

/// A round of fetches changes no source: the registry tracks the same
/// sources in the same order.
pub proof fn lemma_synced_urls(m: ManagerView, fetched: Seq<FetchedView>)
    ensures
        urls_of(synced(m, fetched).feeds) == urls_of(m.feeds),
{
    assert(urls_of(synced(m, fetched).feeds) =~= urls_of(m.feeds));
}

/// Which entries are fresh depends on the sources of the registry alone, not
/// on the snapshots that it holds.
pub proof fn lemma_fresh_by_urls(a: Seq<SlotView>, b: Seq<SlotView>, fetched: Seq<FetchedView>)
    requires
        urls_of(a) == urls_of(b),
    ensures
        fresh_entries(a, fetched) == fresh_entries(b, fetched),
    decreases a.len(),
{
    assert(a.len() == urls_of(a).len());
    assert(b.len() == urls_of(b).len());
    if a.len() > 0 {
        assert(urls_of(a)[a.len() - 1] == a.last().url);
        assert(urls_of(b)[b.len() - 1] == b.last().url);
        assert(urls_of(a.drop_last()) =~= urls_of(a).drop_last());
        assert(urls_of(b.drop_last()) =~= urls_of(b).drop_last());
        lemma_fresh_by_urls(a.drop_last(), b.drop_last(), fetched);
    }
}

/// What the log holds after one more decision.
pub proof fn lemma_judged_push(log: Seq<JudgedView>, last: JudgedView, e: EntryView)
    ensures
        judged(log.push(last), e) <==> judged(log, e) || e == last.entry,
{
    let longer = log.push(last);
    if judged(longer, e) {
        let i = choose|i: int| 0 <= i < longer.len() && (#[trigger] longer[i]).entry == e;
        if i < log.len() {
            assert(log[i].entry == e);
        }
    }
    if judged(log, e) {
        let i = choose|i: int| 0 <= i < log.len() && (#[trigger] log[i]).entry == e;
        assert(longer[i].entry == e);
    }
    if e == last.entry {
        assert(longer[log.len() as int].entry == e);
    }
}

/// An entry is admitted exactly if it was delivered and not judged.
pub proof fn lemma_admitted_contains(fresh: Seq<EntryView>, log: Seq<JudgedView>, e: EntryView)
    ensures
        admitted(fresh, log).contains(e) <==> fresh.contains(e) && !judged(log, e),
{
    let pred = unjudged(log);
    let kept = fresh.filter(pred);
    fresh.filter_lemma(pred);
    if kept.contains(e) {
        let i = choose|i: int| 0 <= i < kept.len() && kept[i] == e;
        assert(pred(kept[i]));
        fresh.lemma_filter_contains_rev(pred, e);
    }
    if fresh.contains(e) && !judged(log, e) {
        let i = choose|i: int| 0 <= i < fresh.len() && fresh[i] == e;
        assert(pred(fresh[i]));
    }
}

/// What is admitted of two deliveries, one after the other.
pub proof fn lemma_admitted_concat(a: Seq<EntryView>, b: Seq<EntryView>, log: Seq<JudgedView>)
    ensures
        admitted(a + b, log) == admitted(a, log) + admitted(b, log),
{
    Seq::filter_distributes_over_add(a, b, unjudged(log));
}

/// A round of fetches keeps the state well formed and keeps what was queued
/// at the front of the queue. Afterwards the queue holds an entry exactly if
/// it held it before, or the entry was delivered and not judged; and the
/// queue is longer by the number of distinct entries that were delivered and
/// neither judged nor queued.
pub proof fn lemma_synced_queue(m: ManagerView, fetched: Seq<FetchedView>)
    requires
        m.wf(),
    ensures
        synced(m, fetched).wf(),
        synced(m, fetched).to_see.take(m.to_see.len() as int) == m.to_see,
        synced(m, fetched).to_see.len() == m.to_see.len() + admitted(
            fresh_entries(m.feeds, fetched),
            m.already_seen,
        ).to_set().difference(m.to_see.to_set()).len(),
        forall|e: EntryView|
            synced(m, fetched).to_see.contains(e) <==> m.to_see.contains(e) || (fresh_entries(
                m.feeds,
                fetched,
            ).contains(e) && !judged(m.already_seen, e)),
{
    let fresh = fresh_entries(m.feeds, fetched);
    let new = admitted(fresh, m.already_seen);
    let after = synced(m, fetched).to_see;
    lemma_synced_urls(m, fetched);
    lemma_merged_distinct(m.to_see, new);
    crate::dedup::lemma_merged_keeps_base(m.to_see, new);
    lemma_merged_len(m.to_see, new);
    assert forall|e: EntryView|
        after.contains(e) <==> m.to_see.contains(e) || (fresh.contains(e) && !judged(
            m.already_seen,
            e,
        )) by {
        lemma_merged_contains(m.to_see, new, e);
        lemma_admitted_contains(fresh, m.already_seen, e);
    }
    assert forall|i: int| 0 <= i < after.len() implies !judged(
        m.already_seen,
        #[trigger] after[i],
    ) by {
        assert(after.contains(after[i]));
        if m.to_see.contains(after[i]) {
            let k = choose|k: int| 0 <= k < m.to_see.len() && m.to_see[k] == after[i];
            assert(!judged(m.already_seen, m.to_see[k]));
        }
    }
}

/// An entry that was judged is not queued again, whatever is fetched.
pub proof fn lemma_judged_stays_out(m: ManagerView, fetched: Seq<FetchedView>, e: EntryView)
    requires
        m.wf(),
        judged(m.already_seen, e),
    ensures
        !m.to_see.contains(e),
        !synced(m, fetched).to_see.contains(e),
{
    lemma_synced_queue(m, fetched);
    if m.to_see.contains(e) {
        let k = choose|k: int| 0 <= k < m.to_see.len() && m.to_see[k] == e;
        assert(!judged(m.already_seen, m.to_see[k]));
    }
}

/// After any number of rounds of fetches, with no decision in between, the
/// queue is what it was, followed by the entries of all rounds that were
/// neither judged nor queued, each once; and its length has grown by the
/// number of such entries that are distinct.
pub proof fn lemma_queue_after_rounds(m: ManagerView, rounds: Seq<Seq<FetchedView>>)
    requires
        m.wf(),
    ensures
        synced_all(m, rounds).wf(),
        urls_of(synced_all(m, rounds).feeds) == urls_of(m.feeds),
        synced_all(m, rounds).already_seen == m.already_seen,
        synced_all(m, rounds).to_see == merged(
            m.to_see,
            admitted(fresh_of_rounds(m.feeds, rounds), m.already_seen),
        ),
        synced_all(m, rounds).to_see.len() == m.to_see.len() + admitted(
            fresh_of_rounds(m.feeds, rounds),
            m.already_seen,
        ).to_set().difference(m.to_see.to_set()).len(),
    decreases rounds.len(),
{
    let log = m.already_seen;
    if rounds.len() > 0 {
        let earlier = rounds.drop_last();
        let so_far = synced_all(m, earlier);
        lemma_queue_after_rounds(m, earlier);
        lemma_synced_urls(so_far, rounds.last());
        lemma_synced_queue(so_far, rounds.last());
        lemma_fresh_by_urls(so_far.feeds, m.feeds, rounds.last());
        lemma_admitted_concat(
            fresh_of_rounds(m.feeds, earlier),
            fresh_entries(m.feeds, rounds.last()),
            log,
        );
        lemma_merged_concat(
            m.to_see,
            admitted(fresh_of_rounds(m.feeds, earlier), log),
            admitted(fresh_entries(m.feeds, rounds.last()), log),
        );
    } else {
        reveal(Seq::filter);
    }
    lemma_merged_len(m.to_see, admitted(fresh_of_rounds(m.feeds, rounds), log));
}

/// The place of the first result for a source, if there is one.
fn find_fetched(fetched: &Vec<Fetched>, url: &String) -> (r: Option<usize>)
    ensures
        match r {
            Some(j) => j < fetched.len() && outcome_for(fetched_view(fetched@), url@) == Some(
                fetched[j as int]@.outcome,
            ),
            None => outcome_for(fetched_view(fetched@), url@) is None,
        },
{
    let ghost all = fetched_view(fetched@);
    let mut i: usize = 0;
    assert(all.skip(0) =~= all);
    while i < fetched.len()
        invariant
            i <= fetched.len(),
            all == fetched_view(fetched@),
            outcome_for(all, url@) == outcome_for(all.skip(i as int), url@),
        decreases fetched.len() - i,
    {
        assert(all.skip(i as int)[0] == fetched[i as int]@);
        if fetched[i].url == *url {
            return Some(i);
        }
        assert(all.skip(i as int).drop_first() =~= all.skip(i + 1));
        i += 1;
    }
    None
}

/// Whether the queue holds an entry equal to `entry`.
fn queue_holds(queue: &Vec<Entry>, entry: &Entry) -> (r: bool)
    ensures
        r == entries_view(queue@).contains(entry@),
{
    let mut i: usize = 0;
    while i < queue.len()
        invariant
            i <= queue.len(),
            forall|k: int| 0 <= k < i ==> queue[k]@ != entry@,
        decreases queue.len() - i,
    {
        if queue[i].same_as(entry) {
            assert(entries_view(queue@)[i as int] == entry@);
            return true;
        }
        i += 1;
    }
    assert forall|k: int| 0 <= k < entries_view(queue@).len() implies entries_view(queue@)[k]
        != entry@ by {}
    false
}

/// Whether the log holds a decision on an entry equal to `entry`.
fn log_holds(log: &Vec<JudgedEntry>, entry: &Entry) -> (r: bool)
    ensures
        r == judged(judged_view(log@), entry@),
{
    let mut i: usize = 0;
    while i < log.len()
        invariant
            i <= log.len(),
            forall|k: int| 0 <= k < i ==> log[k].entry@ != entry@,
        decreases log.len() - i,
    {
        if log[i].entry.same_as(entry) {
            assert(judged_view(log@)[i as int].entry == entry@);
            return true;
        }
        i += 1;
    }
    assert forall|k: int| 0 <= k < judged_view(log@).len() implies (#[trigger] judged_view(
        log@,
    )[k]).entry != entry@ by {
        assert(judged_view(log@)[k] == log[k]@);
    }
    false
}

/// Appends to the queue the entries that were neither judged nor queued
/// yet, each once.
fn enqueue_new(queue: &mut Vec<Entry>, entries: &Vec<Entry>, log: &Vec<JudgedEntry>)
    ensures
        entries_view(final(queue)@) == merged(
            entries_view(old(queue)@),
            admitted(entries_view(entries@), judged_view(log@)),
        ),
{
    let ghost base = entries_view(queue@);
    let ghost all = entries_view(entries@);
    let ghost pred = unjudged(judged_view(log@));
    let mut i: usize = 0;
    proof {
        reveal(Seq::filter);
        assert(all.take(0) =~= Seq::<EntryView>::empty());
    }
    while i < entries.len()
        invariant
            i <= entries.len(),
            all == entries_view(entries@),
            pred == unjudged(judged_view(log@)),
            entries_view(queue@) == merged(base, all.take(i as int).filter(pred)),
        decreases entries.len() - i,
    {
        let ghost kept = all.take(i as int).filter(pred);
        proof {
            reveal(Seq::filter);
            let next = all.take(i + 1);
            assert(next.drop_last() =~= all.take(i as int));
            assert(next.last() == entries[i as int]@);
            assert(kept.push(entries[i as int]@).drop_last() =~= kept);
        }
        if !log_holds(log, &entries[i]) && !queue_holds(queue, &entries[i]) {
            let ghost before = entries_view(queue@);
            queue.push(entries[i].clone());
            assert(entries_view(queue@) =~= before.push(entries[i as int]@));
        }
        i += 1;
    }
    assert(all.take(entries.len() as int) =~= all);
}

impl FeedManager {
    /// Every manager is well formed.
    #[verifier::type_invariant]
    pub open spec fn valid(self) -> bool {
        self@.wf()
    }

    /// A manager that tracks no feed and holds no entry.
    pub fn new() -> (r: FeedManager)
        ensures
            r@.feeds.len() == 0,
            r@.to_see.len() == 0,
            r@.already_seen.len() == 0,
            r@.wf(),
    {
        FeedManager { feeds: Vec::new(), to_see: Vec::new(), already_seen: Vec::new() }
    }

    /// The snapshot that is held for a source, if the source is tracked.
    pub fn get_feed(&self, url: &str) -> (r: Option<&Snapshot>)
        ensures
            match r {
                Some(feed) => lookup(self@.feeds, url@) == Some(feed@),
                None => lookup(self@.feeds, url@) is None,
            },
    {
        proof {
            use_type_invariant(self);
            lemma_lookup_untracked(self@.feeds, url@);
        }
        let key = String::from_str(url);
        match find_slot(&self.feeds, &key) {
            Some(p) => {
                proof {
                    lemma_lookup_at(self@.feeds, p as int);
                }
                Some(&self.feeds[p].feed)
            },
            None => None,
        }
    }

    /// Starts to track a source. A source that is tracked already keeps its
    /// slot and its snapshot; a new one gets a slot at the end of the
    /// registry, with the placeholder for a snapshot. Nothing is fetched. The
    /// result is the snapshot that the slot holds.
    pub fn new_feed(&mut self, url: &str) -> (r: Snapshot)
        ensures
            final(self)@.feeds == registered(old(self)@.feeds, url@),
            final(self)@.to_see == old(self)@.to_see,
            final(self)@.already_seen == old(self)@.already_seen,
            lookup(final(self)@.feeds, url@) == Some(r@),
            final(self)@.wf(),
    {
        proof {
            use_type_invariant(&*self);
        }
        let key = String::from_str(url);
        let ghost before = self@.feeds;
        match find_slot(&self.feeds, &key) {
            Some(p) => {
                proof {
                    lemma_lookup_at(before, p as int);
                    assert(urls_of(before)[p as int] == url@);
                }
                self.feeds[p].feed.clone()
            },
            None => {
                let feed = Snapshot::default();
                let mut feeds: Vec<Slot> = Vec::new();
                std::mem::swap(&mut self.feeds, &mut feeds);
                feeds.push(Slot { url: key, feed: feed.clone() });
                proof {
                    assert(urls_of(slots_view(feeds@)) =~= urls_of(before).push(url@));
                }
                self.feeds = feeds;
                proof {
                    let after = self@.feeds;
                    assert(after =~= before.push(SlotView { url: url@, feed: placeholder_snapshot() }));
                    assert(urls_of(after) =~= urls_of(before).push(url@));
                }
                feed
            },
        }
    }

    /// Stops tracking a source. A source that is not tracked is left alone.
    pub fn remove_feed_by_url(&mut self, url: &str)
        ensures
            final(self)@.feeds == removed(old(self)@.feeds, url@),
            final(self)@.to_see == old(self)@.to_see,
            final(self)@.already_seen == old(self)@.already_seen,
            final(self)@.wf(),
    {
        proof {
            use_type_invariant(&*self);
        }
        let key = String::from_str(url);
        let ghost before = self@.feeds;
        match find_slot(&self.feeds, &key) {
            Some(p) => {
                proof {
                    lemma_remove_at(before, p as int);
                    lemma_removed_urls(before, url@);
                }
                let mut feeds: Vec<Slot> = Vec::new();
                std::mem::swap(&mut self.feeds, &mut feeds);
                feeds.remove(p);
                assert(slots_view(feeds@) =~= before.remove(p as int));
                self.feeds = feeds;
            },
            None => {
                proof {
                    lemma_remove_untracked(before, url@);
                }
            },
        }
    }

    /// The entry that is shown next: the one that was queued last. It stays
    /// in the queue.
    pub fn next(&self) -> (r: Option<&Entry>)
        ensures
            match r {
                Some(entry) => self@.to_see.len() > 0 && entry@ == self@.to_see.last(),
                None => self@.to_see.len() == 0,
            },
    {
        if self.to_see.len() == 0 {
            None
        } else {
            Some(&self.to_see[self.to_see.len() - 1])
        }
    }

    /// Records the reader's decision on the entry that is shown: the entry
    /// leaves the queue and enters the log with the decision. There must be
    /// an entry to decide on.
    pub fn decide(&mut self, liked: bool)
        requires
            old(self)@.to_see.len() > 0,
        ensures
            final(self)@.feeds == old(self)@.feeds,
            final(self)@.to_see == old(self)@.to_see.drop_last(),
            final(self)@.already_seen == old(self)@.already_seen.push(
                JudgedView { entry: old(self)@.to_see.last(), liked },
            ),
            final(self)@.wf(),
    {
        proof {
            use_type_invariant(&*self);
        }
        let ghost before = self@;
        let ghost decided = JudgedView { entry: before.to_see.last(), liked };
        let mut to_see: Vec<Entry> = Vec::new();
        std::mem::swap(&mut self.to_see, &mut to_see);
        let popped = to_see.pop();
        assert(entries_view(to_see@) =~= before.to_see.drop_last());
        self.to_see = to_see;
        if let Some(entry) = popped {
            let mut log: Vec<JudgedEntry> = Vec::new();
            std::mem::swap(&mut self.already_seen, &mut log);
            log.push(JudgedEntry { entry, liked });
            proof {
                assert(judged_view(log@) =~= before.already_seen.push(decided));
                assert forall|i: int| 0 <= i < before.to_see.len() - 1 implies !judged(
                    before.already_seen.push(decided),
                    #[trigger] before.to_see.drop_last()[i],
                ) by {
                    lemma_judged_push(before.already_seen, decided, before.to_see[i]);
                    assert(before.to_see[i] != before.to_see[before.to_see.len() - 1]);
                    assert(!judged(before.already_seen, before.to_see[i]));
                }
            }
            self.already_seen = log;
        }
    }

    /// Drops the entry that is shown without recording a decision, as for an
    /// entry that the filter rejected: it leaves the queue and does not enter
    /// the log. The result is the entry, or `None` where the queue is empty.
    pub fn discard(&mut self) -> (r: Option<Entry>)
        ensures
            final(self)@.feeds == old(self)@.feeds,
            final(self)@.already_seen == old(self)@.already_seen,
            final(self)@.wf(),
            match r {
                Some(entry) => old(self)@.to_see.len() > 0 && entry@ == old(self)@.to_see.last()
                    && final(self)@.to_see == old(self)@.to_see.drop_last(),
                None => old(self)@.to_see.len() == 0 && final(self)@.to_see == old(
                    self,
                )@.to_see,
            },
    {
        proof {
            use_type_invariant(&*self);
        }
        let ghost before = self@;
        let mut to_see: Vec<Entry> = Vec::new();
        std::mem::swap(&mut self.to_see, &mut to_see);
        let r = to_see.pop();
        proof {
            if r is Some {
                assert(entries_view(to_see@) =~= before.to_see.drop_last());
            } else {
                assert(entries_view(to_see@) =~= before.to_see);
            }
        }
        self.to_see = to_see;
        r
    }

    /// The tracked feeds, in the order in which they were registered.
    pub fn feeds(&self) -> (r: &Vec<Slot>)
        ensures
            slots_view(r@) == self@.feeds,
            self@.wf(),
    {
        proof {
            use_type_invariant(self);
        }
        &self.feeds
    }

    /// The entries that await a decision; the last one is shown next.
    pub fn to_see(&self) -> (r: &Vec<Entry>)
        ensures
            entries_view(r@) == self@.to_see,
    {
        &self.to_see
    }

    /// The decisions made, oldest first.
    pub fn already_seen(&self) -> (r: &Vec<JudgedEntry>)
        ensures
            judged_view(r@) == self@.already_seen,
    {
        &self.already_seen
    }

    /// Merges a round of fetches into the state.
    ///
    /// The feeds are taken in the order of the registry. A feed for which a
    /// fresh snapshot was fetched gets that snapshot in place of the one it
    /// had, and the snapshot's entries are appended to the queue in their
    /// own order, but for those that the queue holds already and those that
    /// were judged before. A feed whose fetch failed, or for which nothing
    /// was fetched, keeps its snapshot. The log is not touched. The result
    /// names the tracked sources whose fetch failed.
    pub fn sync(&mut self, fetched: &Vec<Fetched>) -> (failed: Vec<String>)
        ensures
            final(self)@ == synced(old(self)@, fetched_view(fetched@)),
            failed.deep_view() == failed_urls(old(self)@.feeds, fetched_view(fetched@)),
            final(self)@.wf(),
    {
        proof {
            use_type_invariant(&*self);
        }
        let ghost before = self@;
        let ghost news = fetched_view(fetched@);
        let mut feeds: Vec<Slot> = Vec::new();
        std::mem::swap(&mut self.feeds, &mut feeds);
        let mut to_see: Vec<Entry> = Vec::new();
        std::mem::swap(&mut self.to_see, &mut to_see);
        let mut failed: Vec<String> = Vec::new();
        let mut i: usize = 0;
        proof {
            reveal(Seq::filter);
            assert(before.feeds.take(0) =~= Seq::<SlotView>::empty());
            assert(failed.deep_view() =~= Seq::<Seq<char>>::empty());
        }
        while i < feeds.len()
            invariant
                i <= feeds.len(),
                feeds.len() == before.feeds.len(),
                news == fetched_view(fetched@),
                forall|k: int| 0 <= k < i ==> (#[trigger] feeds[k])@ == refreshed(before.feeds[k], news),
                forall|k: int| i <= k < feeds.len() ==> (#[trigger] feeds[k])@ == before.feeds[k],
                self@.already_seen == before.already_seen,
                entries_view(to_see@) == merged(
                    before.to_see,
                    admitted(fresh_entries(before.feeds.take(i as int), news), before.already_seen),
                ),
                failed.deep_view() == failed_urls(before.feeds.take(i as int), news),
            decreases feeds.len() - i,
        {
            let ghost done = before.feeds.take(i as int);
            let ghost next = before.feeds.take(i + 1);
            proof {
                assert(next.drop_last() =~= done);
                assert(next.last() == before.feeds[i as int]);
                lemma_admitted_concat(
                    fresh_entries(done, news),
                    delivered(news, before.feeds[i as int].url),
                    before.already_seen,
                );
                lemma_merged_concat(
                    before.to_see,
                    admitted(fresh_entries(done, news), before.already_seen),
                    admitted(delivered(news, before.feeds[i as int].url), before.already_seen),
                );
                reveal(Seq::filter);
                assert(admitted(Seq::<EntryView>::empty(), before.already_seen)
                    =~= Seq::<EntryView>::empty());
            }
            match find_fetched(fetched, &feeds[i].url) {
                Some(j) => {
                    match &fetched[j].outcome {
                        Ok(feed) => {
                            enqueue_new(&mut to_see, &feed.entries, &self.already_seen);
                            feeds[i].feed = feed.clone();
                        },
                        Err(_) => {
                            let ghost named = failed.deep_view();
                            failed.push(feeds[i].url.clone());
                            assert(failed.deep_view() =~= named.push(before.feeds[i as int].url));
                        },
                    }
                },
                None => {},
            }
            i += 1;
        }
        proof {
            assert(before.feeds.take(feeds.len() as int) =~= before.feeds);
            assert(slots_view(feeds@) =~= synced(before, news).feeds);
            assert(urls_of(slots_view(feeds@)) =~= urls_of(before.feeds));
            lemma_synced_queue(before, news);
        }
        self.feeds = feeds;
        self.to_see = to_see;
        failed
    }
}

} // verus!
