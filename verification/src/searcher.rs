//! The engine: built once from an archive, then asked for threads and for
//! highlighted messages.

use crate::error::SearchError;
use crate::highlight::{
    mark_word, message_spans, span_views, string_views, text_spans, token_span, Span, Text,
};
use crate::index::{
    build_index, lemma_thread_terms_are_long_words, thread_terms, threads_with_term,
    InvertedIndex, MIN_INDEXED_CHARS,
};
use crate::lemmatizer::{normal_form, normalize, Lemmatizer};
use crate::merge::{merge_and, merge_or};
use crate::message::{
    archive_view, first_misplaced_at, plain_text, render_plain, segment_views, well_formed,
    well_placed, Message, MessageView, TextEntity,
};
use crate::posting::{
    ascending_ids, lemma_ascending_ids, lemma_ascending_ids_agree, lemma_ascending_ids_none,
    lemma_ascending_is_listing, strictly_ascending,
};
use crate::query::{
    lex, lex_query, lexeme_views, parse_query, parse_text, words_of, QueryToken, QueryView,
    SearchQuery,
};
use crate::rank::{ranked, ranks_before, sort_by_recency, Recency};
use crate::text::{char_string, token_views, tokenize, tokens_of, Token};
use crate::thread_dsu::seqs_of;
use crate::threads::{build_threads, lemma_threads_ascending, threads_of};
use vstd::prelude::*;

verus! {

/// One thread that a query found.
#[derive(Debug, PartialEq, Eq)]
pub struct ThreadSearchResult {
    pub thread_id: u32,
    /// Reserved for a measure of relevance; always zero.
    pub score: u32,
    /// The text of the thread's first message.
    pub title_text: String,
    /// When the thread's first message was sent.
    pub date_unixtime: u32,
}

/// What a found thread holds.
pub struct ThreadHit {
    pub thread_id: u32,
    pub score: u32,
    pub title: Seq<char>,
    pub date: u32,
}

impl View for ThreadSearchResult {
    type V = ThreadHit;

    open spec fn view(&self) -> ThreadHit {
        ThreadHit {
            thread_id: self.thread_id,
            score: self.score,
            title: self.title_text@,
            date: self.date_unixtime,
        }
    }
}

impl Clone for ThreadSearchResult {
    fn clone(&self) -> (out: ThreadSearchResult)
        ensures
            out@ == self@,
    {
        ThreadSearchResult {
            thread_id: self.thread_id,
            score: self.score,
            title_text: self.title_text.clone(),
            date_unixtime: self.date_unixtime,
        }
    }
}

/// What a list of found threads holds.
pub open spec fn hit_views(hits: Seq<ThreadSearchResult>) -> Seq<ThreadHit> {
    Seq::new(hits.len(), |i: int| hits[i]@)
}

/// One message as it is shown.
#[derive(Debug, PartialEq, Eq)]
pub struct MessageResult {
    pub message_id: usize,
    /// The message's text, span by span.
    pub text: Vec<Text>,
    /// The text of the message that this one answers, if any.
    pub reply_to_text: Option<String>,
}

/// What a shown message holds.
pub struct ShownMessage {
    pub message_id: usize,
    pub text: Seq<Span>,
    pub reply_to_text: Option<Seq<char>>,
}

impl View for MessageResult {
    type V = ShownMessage;

    open spec fn view(&self) -> ShownMessage {
        ShownMessage {
            message_id: self.message_id,
            text: span_views(self.text@),
            reply_to_text: match self.reply_to_text {
                Some(t) => Some(t@),
                None => None,
            },
        }
    }
}

impl Clone for MessageResult {
    fn clone(&self) -> (out: MessageResult)
        ensures
            out@ == self@,
    {
        let mut text: Vec<Text> = Vec::new();
        let mut k: usize = 0;
        while k < self.text.len()
            invariant
                k <= self.text.len(),
                text.len() == k,
                forall|i: int| 0 <= i < k ==> (#[trigger] text[i])@ == self.text[i]@,
            decreases self.text.len() - k,
        {
            text.push(self.text[k].clone());
            k = k + 1;
        }
        let reply_to_text = match &self.reply_to_text {
            Some(t) => Some(t.clone()),
            None => None,
        };
        assert(span_views(text@) =~= span_views(self.text@));
        MessageResult { message_id: self.message_id, text, reply_to_text }
    }
}

/// What a list of shown messages holds.
pub open spec fn shown_views(shown: Seq<MessageResult>) -> Seq<ShownMessage> {
    Seq::new(shown.len(), |i: int| shown[i]@)
}

/// Whether a thread matches a query: a word where the thread is indexed
/// under its normal form, whatever the word's length; a conjunction where
/// both sides match, a disjunction where either does.
pub open spec fn query_holds<L: Lemmatizer>(
    lemmatizer: &L,
    archive: Seq<MessageView>,
    members: Seq<usize>,
    query: QueryView,
) -> bool
    decreases query,
{
    match query {
        QueryView::Word(w) => thread_terms(lemmatizer, archive, members).contains(
            normal_form(lemmatizer, w),
        ),
        QueryView::And(l, r) => query_holds(lemmatizer, archive, members, *l) && query_holds(
            lemmatizer,
            archive,
            members,
            *r,
        ),
        QueryView::Or(l, r) => query_holds(lemmatizer, archive, members, *l) || query_holds(
            lemmatizer,
            archive,
            members,
            *r,
        ),
    }
}

/// The threads of an archive that match a query, in ascending order.
pub open spec fn matching_threads<L: Lemmatizer>(
    lemmatizer: &L,
    archive: Seq<MessageView>,
    query: QueryView,
) -> Seq<usize> {
    ascending_ids(
        threads_of(archive).len(),
        |t: int| query_holds(lemmatizer, archive, threads_of(archive)[t], query),
    )
}

/// A conjunction matches the threads that both sides match, a disjunction
/// those that either side matches.
pub proof fn lemma_matching_is_set_algebra<L: Lemmatizer>(
    lemmatizer: &L,
    archive: Seq<MessageView>,
    left: QueryView,
    right: QueryView,
)
    requires
        archive.len() <= usize::MAX,
    ensures
        matching_threads(
            lemmatizer,
            archive,
            QueryView::And(Box::new(left), Box::new(right)),
        ).to_set() == matching_threads(lemmatizer, archive, left).to_set().intersect(
            matching_threads(lemmatizer, archive, right).to_set(),
        ),
        matching_threads(
            lemmatizer,
            archive,
            QueryView::Or(Box::new(left), Box::new(right)),
        ).to_set() == matching_threads(lemmatizer, archive, left).to_set().union(
            matching_threads(lemmatizer, archive, right).to_set(),
        ),
{
    let threads = threads_of(archive);
    let both = QueryView::And(Box::new(left), Box::new(right));
    let either = QueryView::Or(Box::new(left), Box::new(right));
    lemma_threads_ascending(archive);
    lemma_ascending_ids(
        threads.len(),
        |t: int| query_holds(lemmatizer, archive, threads[t], left),
    );
    lemma_ascending_ids(
        threads.len(),
        |t: int| query_holds(lemmatizer, archive, threads[t], right),
    );
    lemma_ascending_ids(
        threads.len(),
        |t: int| query_holds(lemmatizer, archive, threads[t], both),
    );
    lemma_ascending_ids(
        threads.len(),
        |t: int| query_holds(lemmatizer, archive, threads[t], either),
    );
    assert(matching_threads(lemmatizer, archive, both).to_set() =~= matching_threads(
        lemmatizer,
        archive,
        left,
    ).to_set().intersect(matching_threads(lemmatizer, archive, right).to_set()));
    assert(matching_threads(lemmatizer, archive, either).to_set() =~= matching_threads(
        lemmatizer,
        archive,
        left,
    ).to_set().union(matching_threads(lemmatizer, archive, right).to_set()));
}

/// What the order of results goes by for a thread: the time of its first
/// message, and its identifier.
pub open spec fn recency_of(archive: Seq<MessageView>, thread_id: int) -> Recency {
    Recency {
        date: archive[threads_of(archive)[thread_id][0] as int].date,
        thread_id: thread_id as usize,
    }
}

/// The record of a found thread: title and time are those of the thread's
/// first message, and the score is zero.
pub open spec fn hit_of(archive: Seq<MessageView>, thread_id: int) -> ThreadHit {
    let first = archive[threads_of(archive)[thread_id][0] as int];
    ThreadHit {
        thread_id: thread_id as u32,
        score: 0,
        title: plain_text(first.segments),
        date: first.date,
    }
}

/// `a` is shown before `b`: its thread is more recent, or as recent and has
/// the smaller identifier.
pub open spec fn shown_before(a: ThreadHit, b: ThreadHit) -> bool {
    a.date > b.date || (a.date == b.date && a.thread_id < b.thread_id)
}

/// `hits` shows the threads `matching`: each of them once, with its record,
/// the most recent first, and among equally recent threads the one with
/// the smaller identifier first.
pub open spec fn is_ranking(
    hits: Seq<ThreadHit>,
    archive: Seq<MessageView>,
    matching: Seq<usize>,
) -> bool {
    &&& hits.len() == matching.len()
    &&& forall|k: int|
        0 <= k < hits.len() ==> matching.contains((#[trigger] hits[k]).thread_id as usize)
            && hits[k] == hit_of(archive, hits[k].thread_id as int)
    &&& forall|t: usize| #[trigger]
        matching.contains(t) ==> exists|k: int|
            0 <= k < hits.len() && (#[trigger] hits[k]).thread_id == t
    &&& forall|i: int, j: int| 0 <= i < j < hits.len() ==> shown_before(hits[i], hits[j])
}

/// Two lists in strict order of showing that hold the same records are the
/// same list.
proof fn lemma_strict_order_unique(first: Seq<ThreadHit>, second: Seq<ThreadHit>)
    requires
        first.len() == second.len(),
        forall|i: int, j: int| 0 <= i < j < first.len() ==> shown_before(first[i], first[j]),
        forall|i: int, j: int| 0 <= i < j < second.len() ==> shown_before(second[i], second[j]),
        forall|i: int| 0 <= i < first.len() ==> second.contains(#[trigger] first[i]),
        forall|i: int| 0 <= i < second.len() ==> first.contains(#[trigger] second[i]),
    ensures
        first == second,
    decreases first.len(),
{
    if first.len() > 0 {
        let n = first.len() - 1;
        let at_second = choose|j: int| 0 <= j < second.len() && second[j] == first[n];
        let at_first = choose|i: int| 0 <= i < first.len() && first[i] == second[n];
        if at_second < n {
            assert(shown_before(second[at_second], second[n]));
            if at_first < n {
                assert(shown_before(first[at_first], first[n]));
            }
        }
        let a = first.drop_last();
        let b = second.drop_last();
        assert forall|i: int| 0 <= i < a.len() implies b.contains(#[trigger] a[i]) by {
            let j = choose|j: int| 0 <= j < second.len() && second[j] == first[i];
            assert(shown_before(first[i], first[n]));
            assert(b[j] == a[i]);
        }
        assert forall|i: int| 0 <= i < b.len() implies a.contains(#[trigger] b[i]) by {
            let j = choose|j: int| 0 <= j < first.len() && first[j] == second[i];
            assert(a[j] == b[i]);
        }
        lemma_strict_order_unique(a, b);
        assert(first =~= a.push(first[n]));
    }
}

/// The threads to show determine how they are shown: there is one ranking
/// of them at most.
pub proof fn lemma_ranking_unique(
    first: Seq<ThreadHit>,
    second: Seq<ThreadHit>,
    archive: Seq<MessageView>,
    matching: Seq<usize>,
)
    requires
        is_ranking(first, archive, matching),
        is_ranking(second, archive, matching),
    ensures
        first == second,
{
    lemma_strict_order_unique(first, second);
}

/// A message as it is shown: its text in spans, and the plain text of the
/// message that it answers.
pub open spec fn shown_message<L: Lemmatizer>(
    lemmatizer: &L,
    archive: Seq<MessageView>,
    id: int,
    query_words: Seq<Seq<char>>,
) -> ShownMessage {
    ShownMessage {
        message_id: archive[id].id,
        text: message_spans(lemmatizer, archive[id].segments, query_words),
        reply_to_text: match archive[id].reply_to {
            Some(r) => Some(plain_text(archive[r as int].segments)),
            None => None,
        },
    }
}

/// The messages from `min` to `max` as they are shown.
pub open spec fn shown_range<L: Lemmatizer>(
    lemmatizer: &L,
    archive: Seq<MessageView>,
    min: int,
    max: int,
    query_words: Seq<Seq<char>>,
) -> Seq<ShownMessage> {
    Seq::new(
        (max - min + 1) as nat,
        |k: int| shown_message(lemmatizer, archive, min + k, query_words),
    )
}

/// The normal forms of some words, in order.
pub open spec fn normal_forms<L: Lemmatizer>(lemmatizer: &L, words: Seq<Seq<char>>) -> Seq<
    Seq<char>,
> {
    Seq::new(words.len(), |i: int| normal_form(lemmatizer, words[i]))
}

/// The sorted keys of the matching threads show each of them once, in
/// strict order.
proof fn lemma_sorted_keys(
    archive: Seq<MessageView>,
    ids: Seq<usize>,
    entries: Seq<Recency>,
    order: Seq<Recency>,
)
    requires
        strictly_ascending(ids),
        entries.len() == ids.len(),
        forall|m: int|
            0 <= m < ids.len() ==> #[trigger] entries[m] == recency_of(archive, ids[m] as int),
        ranked(order),
        order.to_multiset() == entries.to_multiset(),
    ensures
        order.len() == ids.len(),
        forall|k: int|
            0 <= k < order.len() ==> ids.contains((#[trigger] order[k]).thread_id) && order[k]
                == recency_of(archive, order[k].thread_id as int),
        forall|t: usize| #[trigger]
            ids.contains(t) ==> exists|k: int|
                0 <= k < order.len() && (#[trigger] order[k]).thread_id == t,
        forall|i: int, j: int| 0 <= i < j < order.len() ==> ranks_before(order[i], order[j]),
{
    broadcast use vstd::seq_lib::group_to_multiset_ensures;

    assert(order.len() == order.to_multiset().len());
    assert forall|k: int| 0 <= k < order.len() implies ids.contains(
        (#[trigger] order[k]).thread_id,
    ) && order[k] == recency_of(archive, order[k].thread_id as int) by {
        assert(entries.to_multiset().count(order[k]) > 0);
    }
    assert forall|t: usize| #[trigger] ids.contains(t) implies exists|k: int|
        0 <= k < order.len() && (#[trigger] order[k]).thread_id == t by {
        let m = choose|m: int| 0 <= m < ids.len() && ids[m] == t;
        assert(order.to_multiset().count(entries[m]) > 0);
    }
    entries.lemma_multiset_has_no_duplicates();
    order.lemma_multiset_has_no_duplicates_conv();
    assert forall|i: int, j: int| 0 <= i < j < order.len() implies ranks_before(
        order[i],
        order[j],
    ) by {
        assert(!ranks_before(order[j], order[i]));
    }
}

/// A query word with a short normal form finds nothing, provided that
/// normalizing never shortens a word of four characters or more to fewer
/// than four: the index then holds no word that short.
pub proof fn lemma_short_query_word_finds_nothing<L: Lemmatizer>(
    lemmatizer: &L,
    archive: Seq<MessageView>,
    word: Seq<char>,
)
    requires
        normal_form(lemmatizer, word).len() < MIN_INDEXED_CHARS,
        forall|w: Seq<char>|
            w.len() >= MIN_INDEXED_CHARS ==> (#[trigger] normal_form(lemmatizer, w)).len()
                >= MIN_INDEXED_CHARS,
    ensures
        matching_threads(lemmatizer, archive, QueryView::Word(word)) == Seq::<usize>::empty(),
{
    let threads = threads_of(archive);
    let holds = |t: int| query_holds(lemmatizer, archive, threads[t], QueryView::Word(word));
    assert forall|t: int| 0 <= t < threads.len() implies #[trigger] holds(t) == false by {
        if holds(t) {
            lemma_thread_terms_are_long_words(
                lemmatizer,
                archive,
                threads[t],
                normal_form(lemmatizer, word),
            );
        }
    }
    lemma_ascending_ids_agree(threads.len(), holds, |t: int| false);
    lemma_ascending_ids_none(threads.len());
}

/// The search engine over one archive.
pub struct Searcher<L: Lemmatizer> {
    messages: Vec<Message>,
    threads: Vec<Vec<usize>>,
    lemmatizer: L,
    thread_index: InvertedIndex,
}

impl<L: Lemmatizer> Searcher<L> {
    /// The archive is well formed, the threads are its threads, and the
    /// index lists under each word the threads that hold it.
    #[verifier::type_invariant]
    spec fn inv(&self) -> bool {
        let archive = archive_view(self.messages@);
        &&& well_formed(archive)
        &&& archive.len() <= u32::MAX
        &&& seqs_of(self.threads@) == threads_of(archive)
        &&& self.thread_index.wf()
        &&& forall|w: Seq<char>| #[trigger]
            self.thread_index.posting(w) == threads_with_term(
                &self.lemmatizer,
                archive,
                threads_of(archive),
                w,
            )
    }

    /// The messages that the engine was built from.
    pub closed spec fn archive(&self) -> Seq<MessageView> {
        archive_view(self.messages@)
    }

    /// The lemmatizer that the engine was built with.
    pub closed spec fn lemmatizer(&self) -> &L {
        &self.lemmatizer
    }

    /// Builds the engine: groups the messages into threads and indexes the
    /// threads. An archive that is too large or not well formed is turned
    /// down, and there is no engine.
    pub fn new(lemmatizer: L, messages: Vec<Message>) -> (r: Result<Searcher<L>, SearchError>)
        ensures
            match r {
                Ok(searcher) => {
                    &&& messages.len() <= u32::MAX
                    &&& well_formed(archive_view(messages@))
                    &&& searcher.archive() == archive_view(messages@)
                    &&& searcher.lemmatizer() == lemmatizer
                },
                Err(e) => if messages.len() > u32::MAX {
                    e == SearchError::ArchiveTooLarge
                } else {
                    e matches SearchError::MalformedArchive { position } && first_misplaced_at(
                        archive_view(messages@),
                        position as int,
                    )
                },
            },
    {
        if messages.len() > u32::MAX as usize {
            return Err(SearchError::ArchiveTooLarge);
        }
        let ghost archive = archive_view(messages@);
        let threads = build_threads(&messages)?;
        proof {
            lemma_threads_ascending(archive);
            assert forall|t: int, k: int|
                0 <= t < threads.len() && 0 <= k < threads[t].len() implies (
            #[trigger] threads[t][k]) < messages.len() by {
                let listing = seqs_of(threads@);
                assert(listing[t] == threads@[t]@);
            }
        }
        let thread_index = build_index(&lemmatizer, &messages, &threads);
        Ok(Searcher { messages, threads, lemmatizer, thread_index })
    }

    /// The first and the last message of a thread. The thread need not hold
    /// every message between the two.
    pub fn get_thread_messages(&self, thread_id: usize) -> (r: Result<(usize, usize), SearchError>)
        ensures
            thread_id < threads_of(self.archive()).len() ==> r == Ok::<
                (usize, usize),
                SearchError,
            >(
                (
                    threads_of(self.archive())[thread_id as int][0],
                    threads_of(self.archive())[thread_id as int].last(),
                ),
            ),
            thread_id >= threads_of(self.archive()).len() ==> r == Err::<
                (usize, usize),
                SearchError,
            >(SearchError::ThreadOutOfRange { thread_id }),
    {
        proof {
            use_type_invariant(self);
            lemma_threads_ascending(self.archive());
        }
        if thread_id >= self.threads.len() {
            return Err(SearchError::ThreadOutOfRange { thread_id });
        }
        let members = &self.threads[thread_id];
        proof {
            assert(seqs_of(self.threads@)[thread_id as int] == members@);
        }
        Ok((members[0], members[members.len() - 1]))
    }

    /// The threads that hold a word, in ascending order. The word is looked
    /// up under its normal form, whatever its length.
    pub fn find_threads_by_word(&self, word: String) -> (out: Vec<usize>)
        ensures
            out@ == matching_threads(self.lemmatizer(), self.archive(), QueryView::Word(word@)),
    {
        proof {
            use_type_invariant(self);
        }
        let term = normalize(&self.lemmatizer, word.as_str());
        let out = self.thread_index.lookup(term.as_str());
        proof {
            let archive = self.archive();
            let threads = threads_of(archive);
            lemma_ascending_ids_agree(
                threads.len(),
                |t: int| thread_terms(&self.lemmatizer, archive, threads[t]).contains(term@),
                |t: int|
                    query_holds(&self.lemmatizer, archive, threads[t], QueryView::Word(word@)),
            );
        }
        out
    }

    /// The threads that match a query, in ascending order.
    pub fn find_threads_by_query(&self, query: SearchQuery) -> (out: Vec<usize>)
        ensures
            out@ == matching_threads(self.lemmatizer(), self.archive(), query@),
        decreases query,
    {
        let ghost archive = self.archive();
        let ghost threads = threads_of(archive);
        proof {
            use_type_invariant(self);
            lemma_threads_ascending(archive);
        }
        match query {
            SearchQuery::Word(word) => self.find_threads_by_word(word),
            SearchQuery::Or(left, right) => {
                let ghost l = left@;
                let ghost r = right@;
                let found_left = self.find_threads_by_query(*left);
                let found_right = self.find_threads_by_query(*right);
                proof {
                    lemma_ascending_ids(
                        threads.len(),
                        |t: int| query_holds(&self.lemmatizer, archive, threads[t], l),
                    );
                    lemma_ascending_ids(
                        threads.len(),
                        |t: int| query_holds(&self.lemmatizer, archive, threads[t], r),
                    );
                }
                let out = merge_or(&found_left, &found_right);
                proof {
                    lemma_ascending_is_listing(
                        out@,
                        threads.len(),
                        |t: int| query_holds(&self.lemmatizer, archive, threads[t], query@),
                    );
                }
                out
            },
            SearchQuery::And(left, right) => {
                let ghost l = left@;
                let ghost r = right@;
                let found_left = self.find_threads_by_query(*left);
                let found_right = self.find_threads_by_query(*right);
                proof {
                    lemma_ascending_ids(
                        threads.len(),
                        |t: int| query_holds(&self.lemmatizer, archive, threads[t], l),
                    );
                    lemma_ascending_ids(
                        threads.len(),
                        |t: int| query_holds(&self.lemmatizer, archive, threads[t], r),
                    );
                }
                let out = merge_and(&found_left, &found_right);
                proof {
                    lemma_ascending_is_listing(
                        out@,
                        threads.len(),
                        |t: int| query_holds(&self.lemmatizer, archive, threads[t], query@),
                    );
                }
                out
            },
        }
    }

    /// The normal forms of the words of a query string, in order. Operators
    /// and brackets are left out, short words are kept, and the string need
    /// not be a query.
    pub fn get_query_words(&self, query: String) -> (out: Vec<String>)
        ensures
            string_views(out@) == normal_forms(
                self.lemmatizer(),
                words_of(lex(tokens_of(query@))),
            ),
    {
        let lexemes = lex_query(query.as_str());
        let ghost views = lexeme_views(lexemes@);
        let mut out: Vec<String> = Vec::new();
        let mut k: usize = 0;
        while k < lexemes.len()
            invariant
                k <= lexemes.len(),
                views == lexeme_views(lexemes@),
                string_views(out@) == normal_forms(
                    &self.lemmatizer,
                    words_of(views.take(k as int)),
                ),
            decreases lexemes.len() - k,
        {
            let ghost done = string_views(out@);
            proof {
                assert(views.take(k + 1).drop_last() =~= views.take(k as int));
            }
            match &lexemes[k].token {
                QueryToken::Word(w) => {
                    let term = normalize(&self.lemmatizer, w.as_str());
                    out.push(term);
                    proof {
                        assert(string_views(out@) =~= done.push(term@));
                    }
                },
                _ => {},
            }
            k = k + 1;
        }
        proof {
            assert(views.take(k as int) =~= views);
        }
        out
    }

    /// The threads that match a query string, the most recent first; among
    /// equally recent threads the one with the smaller identifier comes
    /// first. A string that is no query is reported with the place of the
    /// fault.
    pub fn find_threads(&self, query: String) -> (r: Result<Vec<ThreadSearchResult>, SearchError>)
        ensures
            match parse_text(query@) {
                Ok(parsed) => r matches Ok(hits) && is_ranking(
                    hit_views(hits@),
                    self.archive(),
                    matching_threads(self.lemmatizer(), self.archive(), parsed),
                ) && forall|i: int, j: int|
                    0 <= i < j < hits.len() ==> hits[i].date_unixtime >= hits[j].date_unixtime,
                Err(place) => r matches Err(e) && e == (SearchError::QuerySyntax {
                    position: place as usize,
                }),
            },
    {
        let parsed = parse_query(query.as_str())?;
        let ghost archive = self.archive();
        let ghost threads = threads_of(archive);
        let ghost asked = parsed@;
        let ids = self.find_threads_by_query(parsed);
        proof {
            use_type_invariant(self);
            lemma_threads_ascending(archive);
            lemma_ascending_ids(
                threads.len(),
                |t: int| query_holds(&self.lemmatizer, archive, threads[t], asked),
            );
        }
        let mut entries: Vec<Recency> = Vec::new();
        let mut k: usize = 0;
        while k < ids.len()
            invariant
                k <= ids.len(),
                archive == archive_view(self.messages@),
                threads == threads_of(archive),
                seqs_of(self.threads@) == threads,
                forall|x: usize| ids@.contains(x) ==> x < threads.len(),
                forall|t: int|
                    0 <= t < threads.len() ==> {
                        &&& (#[trigger] threads[t]).len() > 0
                        &&& threads[t].last() < archive.len()
                        &&& strictly_ascending(threads[t])
                    },
                entries.len() == k,
                forall|m: int|
                    0 <= m < k ==> #[trigger] entries[m] == recency_of(archive, ids[m] as int),
            decreases ids.len() - k,
        {
            let t = ids[k];
            proof {
                assert(ids@.contains(ids@[k as int]));
                assert(threads[t as int][0] <= threads[t as int].last());
            }
            let first = self.threads[t][0];
            entries.push(Recency { date: self.messages[first].date_unixtime, thread_id: t });
            k = k + 1;
        }
        let order = sort_by_recency(&entries);
        proof {
            lemma_sorted_keys(archive, ids@, entries@, order@);
        }
        let mut hits: Vec<ThreadSearchResult> = Vec::new();
        let mut k: usize = 0;
        while k < order.len()
            invariant
                k <= order.len(),
                archive == archive_view(self.messages@),
                archive.len() <= u32::MAX,
                threads == threads_of(archive),
                threads.len() <= archive.len(),
                seqs_of(self.threads@) == threads,
                forall|x: usize| ids@.contains(x) ==> x < threads.len(),
                forall|t: int|
                    0 <= t < threads.len() ==> {
                        &&& (#[trigger] threads[t]).len() > 0
                        &&& threads[t].last() < archive.len()
                        &&& strictly_ascending(threads[t])
                    },
                forall|m: int|
                    0 <= m < order.len() ==> ids@.contains((#[trigger] order[m]).thread_id)
                        && order[m] == recency_of(archive, order[m].thread_id as int),
                hits.len() == k,
                forall|m: int|
                    0 <= m < k ==> (#[trigger] hits[m])@ == hit_of(
                        archive,
                        order[m].thread_id as int,
                    ),
            decreases order.len() - k,
        {
            let t = order[k].thread_id;
            let first = &self.messages[self.threads[t][0]];
            hits.push(
                ThreadSearchResult {
                    thread_id: t as u32,
                    score: 0,
                    title_text: render_plain(first),
                    date_unixtime: first.date_unixtime,
                },
            );
            k = k + 1;
        }
        proof {
            let shown = hit_views(hits@);
            let matching = ids@;
            assert forall|t: usize| #[trigger] matching.contains(t) implies exists|k: int|
                0 <= k < shown.len() && (#[trigger] shown[k]).thread_id == t by {
                let k = choose|k: int|
                    0 <= k < order.len() && (#[trigger] order[k]).thread_id == t;
                assert(shown[k] == hits[k]@);
            }
            assert forall|i: int, j: int| 0 <= i < j < shown.len() implies shown_before(
                shown[i],
                shown[j],
            ) by {
                assert(ranks_before(order[i], order[j]));
            }
            assert forall|i: int, j: int| 0 <= i < j < hits.len() implies hits[i].date_unixtime
                >= hits[j].date_unixtime by {
                assert(shown_before(shown[i], shown[j]));
            }
        }
        Ok(hits)
    }

    /// The messages from `message_id_min` to `message_id_max` as they are
    /// shown, whichever threads they belong to; none where the first
    /// identifier is larger than the last.
    pub fn get_message_range(
        &self,
        message_id_min: usize,
        message_id_max: usize,
        query_words: Vec<String>,
    ) -> (r: Result<Vec<MessageResult>, SearchError>)
        ensures
            match r {
                Ok(shown) => if message_id_min > message_id_max {
                    shown@.len() == 0
                } else {
                    message_id_max < self.archive().len() && shown_views(shown@) == shown_range(
                        self.lemmatizer(),
                        self.archive(),
                        message_id_min as int,
                        message_id_max as int,
                        string_views(query_words@),
                    )
                },
                Err(e) => message_id_min <= message_id_max && message_id_max
                    >= self.archive().len() && e == (SearchError::MessageOutOfRange {
                    message_id: message_id_max,
                }),
            },
    {
        proof {
            use_type_invariant(self);
        }
        if message_id_min > message_id_max {
            return Ok(Vec::new());
        }
        if message_id_max >= self.messages.len() {
            return Err(SearchError::MessageOutOfRange { message_id: message_id_max });
        }
        let ghost archive = self.archive();
        let ghost asked = string_views(query_words@);
        let mut shown: Vec<MessageResult> = Vec::new();
        let mut id: usize = message_id_min;
        while id <= message_id_max
            invariant
                message_id_min <= id <= message_id_max + 1,
                message_id_max < self.messages.len(),
                archive == archive_view(self.messages@),
                well_formed(archive),
                asked == string_views(query_words@),
                shown.len() == id - message_id_min,
                forall|k: int|
                    0 <= k < shown.len() ==> (#[trigger] shown[k])@ == shown_message(
                        &self.lemmatizer,
                        archive,
                        message_id_min + k,
                        asked,
                    ),
            decreases message_id_max + 1 - id,
        {
            let message = &self.messages[id];
            proof {
                assert(well_placed(archive, id as int));
            }
            let reply_to_text = match message.reply_to_message_id {
                Some(reply_to) => Some(render_plain(&self.messages[reply_to])),
                None => None,
            };
            let text = self.get_highlighted_text(
                message.clone().text_entities,
                query_words.as_slice(),
            );
            shown.push(MessageResult { message_id: message.id, text, reply_to_text });
            id = id + 1;
        }
        Ok(shown)
    }

    /// The spans of a message's text: prose is cut into words and
    /// separators, any other stretch is one plain span.
    pub fn get_highlighted_text(&self, text: Vec<TextEntity>, query_words: &[String]) -> (out: Vec<
        Text,
    >)
        ensures
            span_views(out@) == message_spans(
                self.lemmatizer(),
                segment_views(text@),
                string_views(query_words@),
            ),
    {
        let entities = text;
        let ghost segments = segment_views(entities@);
        let ghost asked = string_views(query_words@);
        let mut out: Vec<Text> = Vec::new();
        let mut k: usize = 0;
        while k < entities.len()
            invariant
                k <= entities.len(),
                segments == segment_views(entities@),
                asked == string_views(query_words@),
                span_views(out@) == message_spans(
                    &self.lemmatizer,
                    segments.take(k as int),
                    asked,
                ),
            decreases entities.len() - k,
        {
            proof {
                assert(segments.take(k + 1).drop_last() =~= segments.take(k as int));
            }
            match &entities[k] {
                TextEntity::Lemmatizable(text) => {
                    let mut spans = self.highlight_substrings(text.clone(), query_words);
                    out.append(&mut spans);
                },
                TextEntity::Illemmatizable(text) => {
                    out.push(Text::Plain(text.clone()));
                },
            }
            k = k + 1;
        }
        proof {
            assert(segments.take(k as int) =~= segments);
        }
        out
    }

    /// The spans of a stretch of prose: each word is one span, highlighted
    /// where the query words hold its normal form and written as it was;
    /// each character between words is a plain span of its own.
    pub fn highlight_substrings(&self, target: String, queries: &[String]) -> (out: Vec<Text>)
        ensures
            span_views(out@) == text_spans(self.lemmatizer(), target@, string_views(queries@)),
    {
        let tokens = tokenize(target.as_str());
        let ghost views = token_views(tokens@);
        let ghost asked = string_views(queries@);
        let mut out: Vec<Text> = Vec::new();
        let mut k: usize = 0;
        while k < tokens.len()
            invariant
                k <= tokens.len(),
                views == token_views(tokens@),
                views == tokens_of(target@),
                asked == string_views(queries@),
                out.len() == k,
                forall|i: int|
                    0 <= i < k ==> (#[trigger] out[i])@ == token_span(
                        &self.lemmatizer,
                        views[i],
                        asked,
                    ),
            decreases tokens.len() - k,
        {
            match &tokens[k] {
                Token::Word(word) => {
                    let normalized = normalize(&self.lemmatizer, word.as_str());
                    out.push(mark_word(word.clone(), &normalized, queries));
                },
                Token::Separator(c) => {
                    out.push(Text::Plain(char_string(*c)));
                },
            }
            k = k + 1;
        }
        out
    }
}

} // verus!
