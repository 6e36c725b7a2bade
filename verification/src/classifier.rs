//! The relevance filter: a token-frequency Bayesian model trained on the
//! reader's judgements.
//!
//! Training counts, for every token, the liked and the disliked entries that
//! hold it. Classifying an entry sweeps the whole vocabulary and reports, for
//! every token, whether the entry holds it and the weights from which the two
//! probabilities of the token are formed. Turning the weights into a score
//! takes logarithms and is left to the caller.

use vstd::prelude::*;
use vstd::string::StringExecFns;
use crate::dedup::{distinct, lemma_merged_contains, lemma_merged_distinct, merged};
use crate::entry::{Entry, EntryView};
use crate::manager::JudgedView;
use crate::persistence::{first_or_empty, lowercase_first, row_of, stored_form, StorageError,
    StoredRow, StoredRowView, stored_rows_view};
use crate::text::{join, joined, list_contains, lowercase, lowercase_of, or_empty,
    text_or_empty};
use crate::tokens::{token_runs, tokenize};

verus! {

/// The model counts as prepared once it was trained on more judged entries
/// than this.
pub const PREPARED_ABOVE: usize = 100;

/// The text of a judged entry, with the reader's judgement.
#[derive(Debug)]
pub struct EntryContent {
    all_content: String,
    liked: bool,
}

/// What a judged text holds, as plain values.
pub struct ContentView {
    pub text: Seq<char>,
    pub liked: bool,
}

impl View for EntryContent {
    type V = ContentView;

    closed spec fn view(&self) -> ContentView {
        ContentView { text: self.all_content@, liked: self.liked }
    }
}

/// The views of a list of judged texts, in order.
pub open spec fn contents_view(data: Seq<EntryContent>) -> Seq<ContentView> {
    Seq::new(data.len(), |i: int| data[i]@)
}

/// The text of an entry from which its tokens are taken: title, summary,
/// body, authors, categories and the canonical link in lower case, with a
/// space between each two.
pub open spec fn entry_text(e: EntryView) -> Seq<char> {
    text_or_empty(e.title) + " "@ + text_or_empty(e.summary) + " "@ + text_or_empty(e.content)
        + " "@ + joined(e.authors, " "@) + " "@ + joined(e.categories, " "@) + " "@
        + lowercase_of(first_or_empty(e.links))
}

/// The text of an entry in lower case, ready to be cut into tokens.
pub open spec fn candidate_text(e: EntryView) -> Seq<char> {
    lowercase_of(entry_text(e))
}

/// The text of a stored row from which its tokens are taken: title, summary,
/// body, authors, categories and link columns, with a space between each
/// two; a missing column counts as empty.
pub open spec fn row_text(row: StoredRowView) -> Seq<char> {
    text_or_empty(row.title) + " "@ + text_or_empty(row.summary) + " "@ + text_or_empty(
        row.content,
    ) + " "@ + text_or_empty(row.authors) + " "@ + text_or_empty(row.categories) + " "@
        + text_or_empty(row.links)
}

/// What a stored row that carries a label gives as a judged text: the text
/// of its columns, liked unless the label is 0.
pub open spec fn content_of_row(row: StoredRowView) -> ContentView {
    ContentView { text: row_text(row), liked: row.is_liked != Some(0int) }
}

/// The text of an entry in lower case, ready to be cut into tokens.
pub fn lower_case_text(entry: &Entry) -> (r: String)
    ensures
        r@ == candidate_text(entry@),
{
    let mut text = or_empty(&entry.title);
    text.append(" ");
    text.append(or_empty(&entry.summary).as_str());
    text.append(" ");
    text.append(or_empty(&entry.content).as_str());
    text.append(" ");
    text.append(join(&entry.authors, " ").as_str());
    text.append(" ");
    text.append(join(&entry.categories, " ").as_str());
    text.append(" ");
    text.append(lowercase_first(&entry.links).as_str());
    assert(text@ =~= entry_text(entry@));
    lowercase(text.as_str())
}

impl EntryContent {
    /// A judged text.
    pub fn new(all_content: String, liked: bool) -> (r: EntryContent)
        ensures
            r@ == (ContentView { text: all_content@, liked }),
    {
        EntryContent { all_content, liked }
    }

    /// The judged text of a stored row. A missing text column counts as
    /// empty. The row must carry a label.
    pub fn from_row(row: &StoredRow) -> (r: EntryContent)
        requires
            row@.is_liked is Some,
        ensures
            r@ == content_of_row(row@),
    {
        let liked = match row.is_liked {
            Some(label) => label != 0,
            None => true,
        };
        let mut text = or_empty(&row.title);
        text.append(" ");
        text.append(or_empty(&row.summary).as_str());
        text.append(" ");
        text.append(or_empty(&row.content).as_str());
        text.append(" ");
        text.append(or_empty(&row.authors).as_str());
        text.append(" ");
        text.append(or_empty(&row.categories).as_str());
        text.append(" ");
        text.append(or_empty(&row.links).as_str());
        assert(text@ =~= row_text(row@));
        EntryContent { all_content: text, liked }
    }

    /// The judged text of an entry that the reader has just judged.
    pub fn from_entry(entry: &Entry, liked: bool) -> (r: EntryContent)
        ensures
            r@ == (ContentView { text: candidate_text(entry@), liked }),
    {
        EntryContent { all_content: lower_case_text(entry), liked }
    }

    /// The text.
    pub fn all_content(&self) -> (r: &String)
        ensures
            r@ == self@.text,
    {
        &self.all_content
    }

    /// The judgement.
    pub fn liked(&self) -> (r: bool)
        ensures
            r == self@.liked,
    {
        self.liked
    }
}

impl Clone for EntryContent {
    fn clone(&self) -> (r: EntryContent)
        ensures
            r@ == self@,
    {
        EntryContent { all_content: self.all_content.clone(), liked: self.liked }
    }
}

impl PartialEq for EntryContent {
    fn eq(&self, other: &EntryContent) -> (r: bool) {
        self.all_content == other.all_content && self.liked == other.liked
    }
}

impl vstd::std_specs::cmp::PartialEqSpecImpl for EntryContent {
    open spec fn obeys_eq_spec() -> bool {
        true
    }

    open spec fn eq_spec(&self, other: &EntryContent) -> bool {
        self@ == other@
    }
}

/// The tokens of a text: its maximal runs of token characters, each once, in
/// the order of their first occurrence.
pub open spec fn tokens_of(text: Seq<char>) -> Seq<Seq<char>> {
    distinct(token_runs(text))
}

/// How many of the judged texts carry the label `liked`.
pub open spec fn labelled(data: Seq<ContentView>, liked: bool) -> nat
    decreases data.len(),
{
    if data.len() == 0 {
        0
    } else {
        labelled(data.drop_last(), liked) + if data.last().liked == liked {
            1nat
        } else {
            0nat
        }
    }
}

/// How many of the judged texts carry the label `liked` and hold `token`.
pub open spec fn holding(data: Seq<ContentView>, token: Seq<char>, liked: bool) -> nat
    decreases data.len(),
{
    if data.len() == 0 {
        0
    } else {
        holding(data.drop_last(), token, liked) + if data.last().liked == liked && tokens_of(
            data.last().text,
        ).contains(token) {
            1nat
        } else {
            0nat
        }
    }
}

/// Every token of the judged texts, each once, in the order of its first
/// occurrence.
pub open spec fn vocabulary_of(data: Seq<ContentView>) -> Seq<Seq<char>>
    decreases data.len(),
{
    if data.len() == 0 {
        Seq::empty()
    } else {
        merged(vocabulary_of(data.drop_last()), tokens_of(data.last().text))
    }
}

/// How often a token was seen in liked and in disliked entries.
#[derive(Debug)]
pub struct TokenCount {
    token: String,
    liked: usize,
    disliked: usize,
}

/// The counts of a token, as plain values.
pub struct TokenCountView {
    pub token: Seq<char>,
    pub liked: nat,
    pub disliked: nat,
}

impl View for TokenCount {
    type V = TokenCountView;

    closed spec fn view(&self) -> TokenCountView {
        TokenCountView {
            token: self.token@,
            liked: self.liked as nat,
            disliked: self.disliked as nat,
        }
    }
}

/// The views of a list of counts, in order.
pub open spec fn counts_view(counts: Seq<TokenCount>) -> Seq<TokenCountView> {
    Seq::new(counts.len(), |i: int| counts[i]@)
}

/// The model: the vocabulary with its counts, the number of liked and of
/// disliked entries, and whether the training set was large enough.
#[derive(Debug)]
pub struct NaiveBayesClassifier {
    alpha: u32,
    counts: Vec<TokenCount>,
    liked_entries_count: usize,
    disliked_entries_count: usize,
    is_prepared: bool,
}

/// What a model holds, as plain values.
pub struct ModelView {
    /// The smoothing constant.
    pub alpha: nat,
    /// The vocabulary in the order in which the tokens were first seen, each
    /// token with its counts.
    pub counts: Seq<TokenCountView>,
    /// The number of liked entries in the training set.
    pub liked_total: nat,
    /// The number of disliked entries in the training set.
    pub disliked_total: nat,
    /// Whether the training set held more than `PREPARED_ABOVE` entries.
    pub prepared: bool,
}

impl ModelView {
    /// The tokens of the vocabulary, in order.
    pub open spec fn vocabulary(self) -> Seq<Seq<char>> {
        Seq::new(self.counts.len(), |i: int| self.counts[i].token)
    }
}

impl View for NaiveBayesClassifier {
    type V = ModelView;

    closed spec fn view(&self) -> ModelView {
        ModelView {
            alpha: self.alpha as nat,
            counts: counts_view(self.counts@),
            liked_total: self.liked_entries_count as nat,
            disliked_total: self.disliked_entries_count as nat,
            prepared: self.is_prepared,
        }
    }
}

/// The model that training on `data` with the smoothing constant `alpha`
/// gives.
pub open spec fn trained(alpha: nat, data: Seq<ContentView>) -> ModelView {
    let vocabulary = vocabulary_of(data);
    ModelView {
        alpha,
        counts: Seq::new(
            vocabulary.len(),
            |i: int|
                TokenCountView {
                    token: vocabulary[i],
                    liked: holding(data, vocabulary[i], true),
                    disliked: holding(data, vocabulary[i], false),
                },
        ),
        liked_total: labelled(data, true),
        disliked_total: labelled(data, false),
        prepared: data.len() > PREPARED_ABOVE,
    }
}

/// No more texts carry a label than there are texts.
pub proof fn lemma_labelled_bound(data: Seq<ContentView>, liked: bool)
    ensures
        labelled(data, liked) <= data.len(),
    decreases data.len(),
{
    if data.len() > 0 {
        lemma_labelled_bound(data.drop_last(), liked);
    }
}

/// Every text is either liked or disliked.
pub proof fn lemma_labelled_sum(data: Seq<ContentView>)
    ensures
        labelled(data, true) + labelled(data, false) == data.len(),
    decreases data.len(),
{
    if data.len() > 0 {
        lemma_labelled_sum(data.drop_last());
    }
}

/// No more texts hold a token under a label than carry that label.
pub proof fn lemma_holding_bound(data: Seq<ContentView>, token: Seq<char>, liked: bool)
    ensures
        holding(data, token, liked) <= labelled(data, liked),
    decreases data.len(),
{
    if data.len() > 0 {
        lemma_holding_bound(data.drop_last(), token, liked);
    }
}

/// The vocabulary holds no token twice.
pub proof fn lemma_vocabulary_distinct(data: Seq<ContentView>)
    ensures
        vocabulary_of(data).no_duplicates(),
    decreases data.len(),
{
    if data.len() > 0 {
        lemma_vocabulary_distinct(data.drop_last());
        lemma_merged_distinct(vocabulary_of(data.drop_last()), tokens_of(data.last().text));
    }
}

/// A token outside the vocabulary was counted in no text.
pub proof fn lemma_unseen_token(data: Seq<ContentView>, token: Seq<char>, liked: bool)
    requires
        !vocabulary_of(data).contains(token),
    ensures
        holding(data, token, liked) == 0,
    decreases data.len(),
{
    if data.len() > 0 {
        lemma_merged_contains(
            vocabulary_of(data.drop_last()),
            tokens_of(data.last().text),
            token,
        );
        lemma_unseen_token(data.drop_last(), token, liked);
    }
}

/// The tokens of a list of counts, in order.
spec fn tokens_counted(counts: Seq<TokenCount>) -> Seq<Seq<char>> {
    Seq::new(counts.len(), |i: int| counts[i].token@)
}

/// One more for the label that was given, none for the other.
spec fn one_if(given: bool, label: bool, held: bool) -> nat {
    if given == label && held {
        1
    } else {
        0
    }
}

/// The counts while the tokens of one more text are being added: `done` are
/// the tokens of that text that were added already.
spec fn counting(
    counts: Seq<TokenCount>,
    seen: Seq<ContentView>,
    liked: bool,
    done: Seq<Seq<char>>,
) -> bool {
    &&& tokens_counted(counts) == merged(vocabulary_of(seen), done)
    &&& forall|i: int|
        0 <= i < counts.len() ==> (#[trigger] counts[i]).liked == holding(
            seen,
            counts[i].token@,
            true,
        ) + one_if(liked, true, done.contains(counts[i].token@))
    &&& forall|i: int|
        0 <= i < counts.len() ==> (#[trigger] counts[i]).disliked == holding(
            seen,
            counts[i].token@,
            false,
        ) + one_if(liked, false, done.contains(counts[i].token@))
}

/// What a prefix of a sequence holds, one item longer.
proof fn lemma_take_next_contains<T>(items: Seq<T>, j: int, x: T)
    requires
        0 <= j < items.len(),
    ensures
        items.take(j + 1).contains(x) <==> items.take(j).contains(x) || x == items[j],
{
    let short = items.take(j);
    let long = items.take(j + 1);
    if long.contains(x) {
        let i = choose|i: int| 0 <= i < long.len() && long[i] == x;
        if i < j {
            assert(short[i] == x);
        }
    }
    if short.contains(x) {
        let i = choose|i: int| 0 <= i < short.len() && short[i] == x;
        assert(long[i] == x);
    }
    if x == items[j] {
        assert(long[j] == x);
    }
}

/// An item of a sequence without repetitions does not occur before its place.
proof fn lemma_not_before<T>(items: Seq<T>, j: int)
    requires
        0 <= j < items.len(),
        items.no_duplicates(),
    ensures
        !items.take(j).contains(items[j]),
{
    let short = items.take(j);
    if short.contains(items[j]) {
        let i = choose|i: int| 0 <= i < short.len() && short[i] == items[j];
        assert(items[i] == items[j]);
    }
}

/// The place of a token among the counts, if it has one.
fn find_token(counts: &Vec<TokenCount>, token: &String) -> (r: Option<usize>)
    ensures
        match r {
            Some(p) => p < counts.len() && counts[p as int].token@ == token@,
            None => !tokens_counted(counts@).contains(token@),
        },
{
    let mut i: usize = 0;
    while i < counts.len()
        invariant
            i <= counts.len(),
            forall|k: int| 0 <= k < i ==> counts[k].token@ != token@,
        decreases counts.len() - i,
    {
        if counts[i].token == *token {
            return Some(i);
        }
        i += 1;
    }
    assert forall|k: int| 0 <= k < tokens_counted(counts@).len() implies tokens_counted(
        counts@,
    )[k] != token@ by {}
    None
}

/// Counts one more text for a token: the token enters the vocabulary if it
/// is new, and its count for the text's label grows by one.
fn increment_token_count(
    counts: &mut Vec<TokenCount>,
    token: &String,
    liked: bool,
    Ghost(seen): Ghost<Seq<ContentView>>,
    Ghost(tokens): Ghost<Seq<Seq<char>>>,
    Ghost(j): Ghost<int>,
)
    requires
        0 <= j < tokens.len(),
        tokens.no_duplicates(),
        token@ == tokens[j],
        seen.len() < usize::MAX,
        counting(old(counts)@, seen, liked, tokens.take(j)),
    ensures
        counting(final(counts)@, seen, liked, tokens.take(j + 1)),
{
    let ghost done = tokens.take(j);
    let ghost next = tokens.take(j + 1);
    let ghost before = counts@;
    proof {
        assert(next.drop_last() =~= done);
        assert(next.last() == token@);
        lemma_not_before(tokens, j);
        lemma_vocabulary_distinct(seen);
        lemma_merged_distinct(vocabulary_of(seen), done);
        lemma_merged_contains(vocabulary_of(seen), done, token@);
        assert forall|x: Seq<char>| next.contains(x) <==> done.contains(x) || x == token@ by {
            lemma_take_next_contains(tokens, j, x);
        }
    }
    match find_token(counts, token) {
        Some(p) => {
            proof {
                assert(tokens_counted(before)[p as int] == token@);
                assert(tokens_counted(before).contains(token@));
                lemma_holding_bound(seen, token@, true);
                lemma_holding_bound(seen, token@, false);
                lemma_labelled_bound(seen, true);
                lemma_labelled_bound(seen, false);
            }
            if liked {
                counts[p].liked = counts[p].liked + 1;
            } else {
                counts[p].disliked = counts[p].disliked + 1;
            }
            proof {
                assert(tokens_counted(counts@) =~= tokens_counted(before));
                assert forall|i: int| 0 <= i < counts.len() && i != p implies counts[i]
                    == before[i] && counts[i].token@ != token@ by {
                    assert(tokens_counted(before)[i] != tokens_counted(before)[p as int]);
                }
            }
        },
        None => {
            proof {
                lemma_unseen_token(seen, token@, true);
                lemma_unseen_token(seen, token@, false);
            }
            let fresh = if liked {
                TokenCount { token: token.clone(), liked: 1, disliked: 0 }
            } else {
                TokenCount { token: token.clone(), liked: 0, disliked: 1 }
            };
            counts.push(fresh);
            proof {
                assert(tokens_counted(counts@) =~= tokens_counted(before).push(token@));
                assert forall|i: int| 0 <= i < before.len() implies counts[i] == before[i]
                    && counts[i].token@ != token@ by {
                    assert(tokens_counted(before)[i] == before[i].token@);
                }
            }
        },
    }
}

impl NaiveBayesClassifier {
    /// The smoothing constant is positive, and no token is counted twice.
    #[verifier::type_invariant]
    spec fn valid(self) -> bool {
        &&& self.alpha > 0
        &&& tokens_counted(self.counts@).no_duplicates()
    }

    /// A model that has seen nothing yet, with the smoothing constant
    /// `alpha`.
    pub fn new_classifier(alpha: u32) -> (r: NaiveBayesClassifier)
        requires
            alpha > 0,
        ensures
            r@ == trained(alpha as nat, Seq::empty()),
    {
        let r = NaiveBayesClassifier {
            alpha,
            counts: Vec::new(),
            liked_entries_count: 0,
            disliked_entries_count: 0,
            is_prepared: false,
        };
        assert(r@.counts =~= trained(alpha as nat, Seq::empty()).counts);
        r
    }

    /// Trains the model on the judged texts, forgetting what it had counted
    /// before: every token of the texts enters the vocabulary, a token's
    /// count for a label is the number of texts with that label that hold
    /// it, and the model is prepared if there were more than
    /// `PREPARED_ABOVE` texts.
    pub fn train(&mut self, data: Vec<EntryContent>)
        ensures
            final(self)@ == trained(old(self)@.alpha, contents_view(data@)),
    {
        proof {
            use_type_invariant(&*self);
        }
        let ghost all = contents_view(data@);
        let mut counts: Vec<TokenCount> = Vec::new();
        let mut liked_total: usize = 0;
        let mut disliked_total: usize = 0;
        let mut k: usize = 0;
        assert(all.take(0) =~= Seq::<ContentView>::empty());
        assert(counting(counts@, all.take(0), true, Seq::empty())) by {
            assert(tokens_counted(counts@) =~= Seq::<Seq<char>>::empty());
        }
        while k < data.len()
            invariant
                k <= data.len(),
                all == contents_view(data@),
                counting(counts@, all.take(k as int), true, Seq::empty()),
                liked_total == labelled(all.take(k as int), true),
                disliked_total == labelled(all.take(k as int), false),
            decreases data.len() - k,
        {
            let ghost seen = all.take(k as int);
            let ghost more = all.take(k + 1);
            let liked = data[k].liked;
            proof {
                assert(more.drop_last() =~= seen);
                assert(more.last() == data[k as int]@);
                lemma_labelled_sum(seen);
            }
            if liked {
                liked_total = liked_total + 1;
            } else {
                disliked_total = disliked_total + 1;
            }
            let tokens = tokenize(data[k].all_content.as_str());
            let ghost words = tokens.deep_view();
            proof {
                lemma_merged_distinct(Seq::empty(), token_runs(data[k as int]@.text));
                assert(words.take(0) =~= Seq::<Seq<char>>::empty());
                assert(counting(counts@, seen, liked, words.take(0)));
            }
            let mut j: usize = 0;
            while j < tokens.len()
                invariant
                    j <= tokens.len(),
                    words == tokens.deep_view(),
                    words.no_duplicates(),
                    seen.len() < usize::MAX,
                    counting(counts@, seen, liked, words.take(j as int)),
                decreases tokens.len() - j,
            {
                increment_token_count(
                    &mut counts,
                    &tokens[j],
                    liked,
                    Ghost(seen),
                    Ghost(words),
                    Ghost(j as int),
                );
                j += 1;
            }
            proof {
                assert(words.take(tokens.len() as int) =~= words);
                assert(counting(counts@, more, true, Seq::empty()));
            }
            k += 1;
        }
        proof {
            assert(all.take(data.len() as int) =~= all);
        }
        proof {
            lemma_vocabulary_distinct(all);
        }
        self.counts = counts;
        self.liked_entries_count = liked_total;
        self.disliked_entries_count = disliked_total;
        self.is_prepared = data.len() > PREPARED_ABOVE;
        proof {
            let want = trained(old(self)@.alpha, all);
            assert(tokens_counted(self.counts@) == vocabulary_of(all));
            assert(self@.counts =~= want.counts) by {
                assert forall|i: int| 0 <= i < self.counts.len() implies self@.counts[i]
                    == want.counts[i] by {
                    assert(tokens_counted(self.counts@)[i] == self.counts[i].token@);
                }
            }
        }
    }
}

/// What the sweep reports for one token of the vocabulary. The probability
/// of the token in a disliked entry is `disliked_weight / total_weight`, in a
/// liked entry `liked_weight / total_weight`.
#[derive(Debug, Clone, Copy, PartialEq, Eq, Structural)]
pub struct TokenOdds {
    /// Whether the entry holds the token.
    pub present: bool,
    /// The token's count in disliked entries, plus the smoothing constant.
    pub disliked_weight: u128,
    /// The token's count in liked entries, plus the smoothing constant.
    pub liked_weight: u128,
    /// The number of liked entries, plus twice the smoothing constant.
    pub total_weight: u128,
}

/// The report for one token, as plain values.
pub struct OddsView {
    pub present: bool,
    pub disliked_weight: nat,
    pub liked_weight: nat,
    pub total_weight: nat,
}

impl View for TokenOdds {
    type V = OddsView;

    open spec fn view(&self) -> OddsView {
        OddsView {
            present: self.present,
            disliked_weight: self.disliked_weight as nat,
            liked_weight: self.liked_weight as nat,
            total_weight: self.total_weight as nat,
        }
    }
}

/// The views of a list of reports, in order.
pub open spec fn odds_view(odds: Seq<TokenOdds>) -> Seq<OddsView> {
    Seq::new(odds.len(), |i: int| odds[i]@)
}

/// The report for the token `count` of a model with the smoothing constant
/// `alpha` and `liked_total` liked entries. Both probabilities are formed
/// over the number of liked entries.
pub open spec fn odds_of(count: TokenCountView, alpha: nat, liked_total: nat, present: bool)
    -> OddsView {
    OddsView {
        present,
        disliked_weight: count.disliked + alpha,
        liked_weight: count.liked + alpha,
        total_weight: liked_total + 2 * alpha,
    }
}

/// The sweep over the whole vocabulary for an entry with the tokens
/// `candidate`: one report for every token of the vocabulary, in order,
/// whether the entry holds the token or not.
pub open spec fn sweep_of(m: ModelView, candidate: Seq<Seq<char>>) -> Seq<OddsView> {
    Seq::new(
        m.counts.len(),
        |i: int|
            odds_of(m.counts[i], m.alpha, m.liked_total, candidate.contains(m.counts[i].token)),
    )
}

/// What the model says of an entry: nothing while it is not prepared, which
/// means that the entry is accepted; else the sweep for the entry's tokens.
pub open spec fn verdict_of(m: ModelView, e: EntryView) -> Option<Seq<OddsView>> {
    if m.prepared {
        Some(sweep_of(m, tokens_of(candidate_text(e))))
    } else {
        None
    }
}

/// Whether every row carries a label.
pub open spec fn all_labelled(rows: Seq<StoredRowView>) -> bool {
    forall|i: int| 0 <= i < rows.len() ==> (#[trigger] rows[i]).is_liked is Some
}

/// The judged texts of a list of rows that all carry a label.
pub open spec fn contents_of_rows(rows: Seq<StoredRowView>) -> Seq<ContentView> {
    Seq::new(rows.len(), |i: int| content_of_row(rows[i]))
}

/// The model that is built from the stored judgements when the program
/// starts: trained on all of them if there are more than `PREPARED_ABOVE`,
/// and empty and unprepared otherwise.
pub open spec fn loaded(data: Seq<ContentView>) -> ModelView {
    if data.len() > PREPARED_ABOVE {
        trained(1, data)
    } else {
        trained(1, Seq::empty())
    }
}

impl NaiveBayesClassifier {
    /// Builds the model from the stored judgements, with the smoothing
    /// constant 1. A row without a label is refused, and no model is built.
    pub fn new(rows: &Vec<StoredRow>) -> (r: Result<NaiveBayesClassifier, StorageError>)
        ensures
            all_labelled(stored_rows_view(rows@)) ==> r is Ok && r.unwrap()@ == loaded(
                contents_of_rows(stored_rows_view(rows@)),
            ),
            !all_labelled(stored_rows_view(rows@)) ==> r is Err && r.unwrap_err()
                == StorageError::MissingLabel,
    {
        let ghost all = stored_rows_view(rows@);
        let mut data: Vec<EntryContent> = Vec::new();
        let mut i: usize = 0;
        while i < rows.len()
            invariant
                i <= rows.len(),
                all == stored_rows_view(rows@),
                data.len() == i,
                forall|k: int| 0 <= k < i ==> (#[trigger] all[k]).is_liked is Some,
                forall|k: int| 0 <= k < i ==> (#[trigger] data[k])@ == content_of_row(all[k]),
            decreases rows.len() - i,
        {
            assert(all[i as int] == rows[i as int]@);
            if rows[i].is_liked.is_none() {
                return Err(StorageError::MissingLabel);
            }
            data.push(EntryContent::from_row(&rows[i]));
            i += 1;
        }
        assert(contents_view(data@) =~= contents_of_rows(all));
        let mut classifier = NaiveBayesClassifier::new_classifier(1);
        if data.len() > PREPARED_ABOVE {
            classifier.train(data);
        }
        Ok(classifier)
    }

    /// The report for the token at `index` of the vocabulary.
    fn probabilities_of_token(&self, index: usize, present: bool) -> (r: TokenOdds)
        requires
            index < self@.counts.len(),
        ensures
            r@ == odds_of(self@.counts[index as int], self@.alpha, self@.liked_total, present),
            r.total_weight > 0,
    {
        proof {
            use_type_invariant(self);
        }
        let count = &self.counts[index];
        TokenOdds {
            present,
            disliked_weight: count.disliked as u128 + self.alpha as u128,
            liked_weight: count.liked as u128 + self.alpha as u128,
            total_weight: self.liked_entries_count as u128 + 2 * (self.alpha as u128),
        }
    }

    /// Sweeps the whole vocabulary for an entry with the given tokens: one
    /// report for every token of the vocabulary, in order, whether the entry
    /// holds the token or not.
    pub fn probabilities_of_message(&self, message_tokens: &Vec<String>) -> (r: Vec<TokenOdds>)
        ensures
            odds_view(r@) == sweep_of(self@, message_tokens.deep_view()),
            forall|i: int| 0 <= i < r.len() ==> (#[trigger] r[i]).total_weight > 0,
    {
        let mut r: Vec<TokenOdds> = Vec::new();
        let mut i: usize = 0;
        while i < self.counts.len()
            invariant
                i <= self.counts.len(),
                r.len() == i,
                forall|k: int|
                    0 <= k < i ==> (#[trigger] r[k])@ == odds_of(
                        self@.counts[k],
                        self@.alpha,
                        self@.liked_total,
                        message_tokens.deep_view().contains(self@.counts[k].token),
                    ),
                forall|k: int| 0 <= k < i ==> (#[trigger] r[k]).total_weight > 0,
            decreases self.counts.len() - i,
        {
            let present = list_contains(message_tokens, &self.counts[i].token);
            let odds = self.probabilities_of_token(i, present);
            r.push(odds);
            i += 1;
        }
        assert(odds_view(r@) =~= sweep_of(self@, message_tokens.deep_view()));
        r
    }

    /// Weighs an entry. While the model is not prepared there is nothing to
    /// weigh and every entry is accepted: the result is `None`. Else the
    /// result is the sweep over the whole vocabulary for the tokens of the
    /// entry's text in lower case.
    pub fn classify(&self, entry: &Entry) -> (r: Option<Vec<TokenOdds>>)
        ensures
            match r {
                Some(odds) => verdict_of(self@, entry@) == Some(odds_view(odds@)),
                None => verdict_of(self@, entry@) is None,
            },
            r matches Some(odds) ==> forall|i: int|
                0 <= i < odds.len() ==> (#[trigger] odds[i]).total_weight > 0,
    {
        if !self.is_prepared {
            return None;
        }
        let text = lower_case_text(entry);
        let message_tokens = tokenize(text.as_str());
        Some(self.probabilities_of_message(&message_tokens))
    }

    /// The smoothing constant.
    pub fn alpha(&self) -> (r: u32)
        ensures
            r == self@.alpha,
            r > 0,
    {
        proof {
            use_type_invariant(self);
        }
        self.alpha
    }

    /// The vocabulary, in the order in which the tokens were first seen. No
    /// token occurs twice.
    pub fn tokens(&self) -> (r: Vec<String>)
        ensures
            r.deep_view() == self@.vocabulary(),
            self@.vocabulary().no_duplicates(),
    {
        proof {
            use_type_invariant(self);
            assert(self@.vocabulary() =~= tokens_counted(self.counts@));
        }
        let mut r: Vec<String> = Vec::new();
        let mut i: usize = 0;
        while i < self.counts.len()
            invariant
                i <= self.counts.len(),
                r.len() == i,
                forall|k: int| 0 <= k < i ==> r[k]@ == self.counts[k].token@,
            decreases self.counts.len() - i,
        {
            r.push(self.counts[i].token.clone());
            i += 1;
        }
        assert(r.deep_view() =~= self@.vocabulary());
        r
    }

    /// The counts of a token in liked and in disliked entries, in this order;
    /// `None` for a token outside the vocabulary.
    pub fn token_counts(&self, token: &String) -> (r: Option<(usize, usize)>)
        ensures
            match r {
                Some((liked, disliked)) => exists|i: int|
                    0 <= i < self@.counts.len() && #[trigger] self@.counts[i] == (TokenCountView {
                        token: token@,
                        liked: liked as nat,
                        disliked: disliked as nat,
                    }),
                None => !self@.vocabulary().contains(token@),
            },
    {
        match find_token(&self.counts, token) {
            Some(p) => {
                assert(self@.counts[p as int] == self.counts[p as int]@);
                Some((self.counts[p].liked, self.counts[p].disliked))
            },
            None => {
                assert(self@.vocabulary() =~= tokens_counted(self.counts@));
                None
            },
        }
    }

    /// The number of liked entries in the training set.
    pub fn liked_entries_count(&self) -> (r: usize)
        ensures
            r == self@.liked_total,
    {
        self.liked_entries_count
    }

    /// The number of disliked entries in the training set.
    pub fn disliked_entries_count(&self) -> (r: usize)
        ensures
            r == self@.disliked_total,
    {
        self.disliked_entries_count
    }

    /// Whether the training set was large enough for the model to judge.
    pub fn is_prepared(&self) -> (r: bool)
        ensures
            r == self@.prepared,
    {
        self.is_prepared
    }
}

/// A model that has seen nothing holds nothing: no token, no entry, and it
/// is not prepared.
pub proof fn lemma_untrained_is_empty(alpha: nat)
    ensures
        trained(alpha, Seq::empty()) == (ModelView {
            alpha,
            counts: Seq::empty(),
            liked_total: 0,
            disliked_total: 0,
            prepared: false,
        }),
{
    assert(trained(alpha, Seq::empty()).counts =~= Seq::<TokenCountView>::empty());
}

/// A model that was trained on no more than `PREPARED_ABOVE` texts, and so
/// one that was trained on none, is not prepared and accepts every entry.
pub proof fn lemma_small_training_accepts(alpha: nat, data: Seq<ContentView>, e: EntryView)
    requires
        data.len() <= PREPARED_ABOVE,
    ensures
        !trained(alpha, data).prepared,
        verdict_of(trained(alpha, data), e) is None,
{
}

/// A model that was trained on more than `PREPARED_ABOVE` texts is prepared,
/// and weighs an entry against every token of its vocabulary, whether the
/// entry holds the token or not.
pub proof fn lemma_large_training_sweeps(alpha: nat, data: Seq<ContentView>, e: EntryView)
    requires
        data.len() > PREPARED_ABOVE,
    ensures
        trained(alpha, data).prepared,
        verdict_of(trained(alpha, data), e) matches Some(odds) && odds.len() == vocabulary_of(
            data,
        ).len(),
{
}

/// In a trained model no token is counted more often under a label than
/// there are entries with that label, and every entry of the training set
/// counts under one of the two labels.
pub proof fn lemma_trained_counts(alpha: nat, data: Seq<ContentView>, i: int)
    requires
        0 <= i < trained(alpha, data).counts.len(),
    ensures
        trained(alpha, data).counts[i].liked <= trained(alpha, data).liked_total,
        trained(alpha, data).counts[i].disliked <= trained(alpha, data).disliked_total,
        trained(alpha, data).liked_total + trained(alpha, data).disliked_total == data.len(),
{
    lemma_holding_bound(data, vocabulary_of(data)[i], true);
    lemma_holding_bound(data, vocabulary_of(data)[i], false);
    lemma_labelled_sum(data);
}

/// The vocabulary of a trained model holds no token twice, and it holds
/// every token of every text of the training set.
pub proof fn lemma_trained_vocabulary(alpha: nat, data: Seq<ContentView>)
    ensures
        trained(alpha, data).vocabulary() == vocabulary_of(data),
        trained(alpha, data).vocabulary().no_duplicates(),
        forall|k: int, token: Seq<char>|
            0 <= k < data.len() && tokens_of(data[k].text).contains(token) ==> vocabulary_of(
                data,
            ).contains(token),
{
    assert(trained(alpha, data).vocabulary() =~= vocabulary_of(data));
    lemma_vocabulary_distinct(data);
    assert forall|k: int, token: Seq<char>|
        0 <= k < data.len() && tokens_of(data[k].text).contains(token) implies vocabulary_of(
        data,
    ).contains(token) by {
        lemma_vocabulary_holds(data, k, token);
    }
}

/// A token of a text of the training set is in the vocabulary.
pub proof fn lemma_vocabulary_holds(data: Seq<ContentView>, k: int, token: Seq<char>)
    requires
        0 <= k < data.len(),
        tokens_of(data[k].text).contains(token),
    ensures
        vocabulary_of(data).contains(token),
    decreases data.len(),
{
    lemma_merged_contains(vocabulary_of(data.drop_last()), tokens_of(data.last().text), token);
    if k < data.len() - 1 {
        lemma_vocabulary_holds(data.drop_last(), k, token);
    }
}

/// A judged entry that was stored and read back carries a label, and the
/// label is the one under which it was stored.
pub proof fn lemma_reloaded_label(e: EntryView, liked: bool)
    ensures
        stored_form(row_of(e, liked)).is_liked is Some,
        content_of_row(stored_form(row_of(e, liked))).liked == liked,
{
}

/// Two training sets of the same labels whose texts have the same tokens,
/// text by text, have the same vocabulary.
pub proof fn lemma_vocabulary_by_tokens(a: Seq<ContentView>, b: Seq<ContentView>)
    requires
        a.len() == b.len(),
        forall|i: int| 0 <= i < a.len() ==> tokens_of(#[trigger] a[i].text) == tokens_of(b[i].text),
    ensures
        vocabulary_of(a) == vocabulary_of(b),
    decreases a.len(),
{
    if a.len() > 0 {
        assert(tokens_of(a[a.len() - 1].text) == tokens_of(b[b.len() - 1].text));
        assert forall|i: int| 0 <= i < a.drop_last().len() implies tokens_of(
            #[trigger] a.drop_last()[i].text,
        ) == tokens_of(b.drop_last()[i].text) by {
            assert(tokens_of(a[i].text) == tokens_of(b[i].text));
        }
        lemma_vocabulary_by_tokens(a.drop_last(), b.drop_last());
    }
}

/// Two training sets of the same labels whose texts have the same tokens,
/// text by text, count every token alike.
pub proof fn lemma_counts_by_tokens(
    a: Seq<ContentView>,
    b: Seq<ContentView>,
    token: Seq<char>,
    liked: bool,
)
    requires
        a.len() == b.len(),
        forall|i: int|
            0 <= i < a.len() ==> (#[trigger] a[i]).liked == b[i].liked && tokens_of(a[i].text)
                == tokens_of(b[i].text),
    ensures
        holding(a, token, liked) == holding(b, token, liked),
        labelled(a, liked) == labelled(b, liked),
    decreases a.len(),
{
    if a.len() > 0 {
        assert(a[a.len() - 1].liked == b[b.len() - 1].liked);
        assert(tokens_of(a[a.len() - 1].text) == tokens_of(b[b.len() - 1].text));
        assert forall|i: int| 0 <= i < a.drop_last().len() implies (#[trigger] a.drop_last()[i]).liked
            == b.drop_last()[i].liked && tokens_of(a.drop_last()[i].text) == tokens_of(
            b.drop_last()[i].text,
        ) by {
            assert(a[i].liked == b[i].liked);
        }
        lemma_counts_by_tokens(a.drop_last(), b.drop_last(), token, liked);
    }
}

/// A model depends on the texts of its training set through their tokens
/// alone: two training sets of the same labels whose texts have the same
/// tokens, text by text, give the same model.
pub proof fn lemma_trained_by_tokens(alpha: nat, a: Seq<ContentView>, b: Seq<ContentView>)
    requires
        a.len() == b.len(),
        forall|i: int|
            0 <= i < a.len() ==> (#[trigger] a[i]).liked == b[i].liked && tokens_of(a[i].text)
                == tokens_of(b[i].text),
    ensures
        trained(alpha, a) == trained(alpha, b),
{
    assert forall|i: int| 0 <= i < a.len() implies tokens_of(#[trigger] a[i].text) == tokens_of(
        b[i].text,
    ) by {
        assert(a[i].liked == b[i].liked);
    }
    lemma_vocabulary_by_tokens(a, b);
    lemma_counts_by_tokens(a, b, Seq::empty(), true);
    lemma_counts_by_tokens(a, b, Seq::empty(), false);
    let vocabulary = vocabulary_of(a);
    assert forall|i: int| 0 <= i < vocabulary.len() implies trained(alpha, a).counts[i] == trained(
        alpha,
        b,
    ).counts[i] by {
        lemma_counts_by_tokens(a, b, vocabulary[i], true);
        lemma_counts_by_tokens(a, b, vocabulary[i], false);
    }
    assert(trained(alpha, a).counts =~= trained(alpha, b).counts);
}

/// The log as a training set: every judged entry with its text in lower
/// case.
pub open spec fn log_contents(log: Seq<JudgedView>) -> Seq<ContentView> {
    Seq::new(
        log.len(),
        |i: int| ContentView { text: candidate_text(log[i].entry), liked: log[i].liked },
    )
}

/// The rows that are read back once the log was stored.
pub open spec fn log_stored(log: Seq<JudgedView>) -> Seq<StoredRowView> {
    Seq::new(log.len(), |i: int| stored_form(row_of(log[i].entry, log[i].liked)))
}

/// Whether a judged entry has the same tokens once it was stored and read
/// back as it has in memory. Storing writes the body, the lists and the link
/// as JSON, which may join what were two tokens: a line break is written
/// as a backslash and the letter n.
pub open spec fn keeps_tokens(e: EntryView, liked: bool) -> bool {
    tokens_of(row_text(stored_form(row_of(e, liked)))) == tokens_of(candidate_text(e))
}

/// Storing the log and building the model from the rows that are read back
/// gives, for every entry, the verdict of the model that was trained on the
/// log in memory, provided every judged entry keeps its tokens when stored.
pub proof fn lemma_round_trip(log: Seq<JudgedView>, probe: EntryView)
    requires
        forall|i: int| 0 <= i < log.len() ==> keeps_tokens((#[trigger] log[i]).entry, log[i].liked),
    ensures
        all_labelled(log_stored(log)),
        log.len() > PREPARED_ABOVE ==> loaded(contents_of_rows(log_stored(log))) == trained(
            1,
            log_contents(log),
        ),
        verdict_of(loaded(contents_of_rows(log_stored(log))), probe) == verdict_of(
            trained(1, log_contents(log)),
            probe,
        ),
{
    let reloaded = contents_of_rows(log_stored(log));
    let direct = log_contents(log);
    assert forall|i: int| 0 <= i < reloaded.len() implies (#[trigger] reloaded[i]).liked
        == direct[i].liked && tokens_of(reloaded[i].text) == tokens_of(direct[i].text) by {
        assert(keeps_tokens(log[i].entry, log[i].liked));
        lemma_reloaded_label(log[i].entry, log[i].liked);
    }
    lemma_trained_by_tokens(1, reloaded, direct);
}

} // verus!
