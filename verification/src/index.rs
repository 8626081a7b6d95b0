//! The inverted index: for each normalized word the ascending list of the
//! threads that hold it.

use crate::lemmatizer::{normal_form, normalize, Lemmatizer};
use crate::message::{archive_view, Message, MessageView, Segment, TextEntity};
use crate::posting::{ascending_ids, lemma_ascending_ids, strictly_ascending};
use crate::thread_dsu::seqs_of;
use crate::text::{token_views, tokenize, tokens_of, Token, TokenView};
use vstd::hash_map::StringHashMap;
use vstd::prelude::*;

verus! {

/// Words with fewer characters than this are not indexed.
pub const MIN_INDEXED_CHARS: usize = 4;

/// A posting list after thread `id` was registered: the list itself where
/// it already ends with `id` or a later thread, else the list with `id`
/// appended.
pub open spec fn with_id(list: Seq<usize>, id: usize) -> Seq<usize> {
    if list.len() > 0 && list.last() >= id {
        list
    } else {
        list.push(id)
    }
}

/// The words under which some pieces of text are indexed, in order: the
/// normal forms of the words that are long enough.
pub open spec fn token_terms<L: Lemmatizer>(lemmatizer: &L, tokens: Seq<TokenView>) -> Seq<
    Seq<char>,
>
    decreases tokens.len(),
{
    if tokens.len() == 0 {
        Seq::empty()
    } else {
        let before = token_terms(lemmatizer, tokens.drop_last());
        match tokens.last() {
            TokenView::Word(w) => if w.len() >= MIN_INDEXED_CHARS {
                before.push(normal_form(lemmatizer, w))
            } else {
                before
            },
            TokenView::Separator(_) => before,
        }
    }
}

/// The words under which one stretch of text is indexed: those of its
/// pieces where it is prose, none otherwise.
pub open spec fn segment_terms<L: Lemmatizer>(lemmatizer: &L, segment: Segment) -> Seq<Seq<char>> {
    match segment {
        Segment::Lemmatizable(text) => token_terms(lemmatizer, tokens_of(text)),
        Segment::Illemmatizable(_) => Seq::empty(),
    }
}

/// The words under which a message is indexed.
pub open spec fn message_terms<L: Lemmatizer>(lemmatizer: &L, segments: Seq<Segment>) -> Seq<
    Seq<char>,
>
    decreases segments.len(),
{
    if segments.len() == 0 {
        Seq::empty()
    } else {
        message_terms(lemmatizer, segments.drop_last()) + segment_terms(
            lemmatizer,
            segments.last(),
        )
    }
}

/// The words under which a thread is indexed: those of all its members.
pub open spec fn thread_terms<L: Lemmatizer>(
    lemmatizer: &L,
    archive: Seq<MessageView>,
    members: Seq<usize>,
) -> Seq<Seq<char>>
    decreases members.len(),
{
    if members.len() == 0 {
        Seq::empty()
    } else {
        thread_terms(lemmatizer, archive, members.drop_last()) + message_terms(
            lemmatizer,
            archive[members.last() as int].segments,
        )
    }
}

/// `term` is the normal form of some word that is long enough to be
/// indexed.
pub open spec fn long_word_form<L: Lemmatizer>(lemmatizer: &L, term: Seq<char>) -> bool {
    exists|w: Seq<char>|
        w.len() >= MIN_INDEXED_CHARS && #[trigger] normal_form(lemmatizer, w) == term
}

/// Whatever the pieces, each word that they are indexed under is the normal
/// form of a word of four characters or more.
pub proof fn lemma_token_terms_are_long_words<L: Lemmatizer>(
    lemmatizer: &L,
    tokens: Seq<TokenView>,
    term: Seq<char>,
)
    requires
        token_terms(lemmatizer, tokens).contains(term),
    ensures
        long_word_form(lemmatizer, term),
    decreases tokens.len(),
{
    let terms = token_terms(lemmatizer, tokens);
    let at = choose|i: int| 0 <= i < terms.len() && terms[i] == term;
    if tokens.len() > 0 {
        let before = token_terms(lemmatizer, tokens.drop_last());
        if at < before.len() {
            lemma_token_terms_are_long_words(lemmatizer, tokens.drop_last(), term);
        }
    }
}

/// Each word that a message is indexed under is the normal form of a word
/// of four characters or more.
pub proof fn lemma_message_terms_are_long_words<L: Lemmatizer>(
    lemmatizer: &L,
    segments: Seq<Segment>,
    term: Seq<char>,
)
    requires
        message_terms(lemmatizer, segments).contains(term),
    ensures
        long_word_form(lemmatizer, term),
    decreases segments.len(),
{
    let terms = message_terms(lemmatizer, segments);
    let at = choose|i: int| 0 <= i < terms.len() && terms[i] == term;
    if segments.len() > 0 {
        let before = message_terms(lemmatizer, segments.drop_last());
        if at < before.len() {
            lemma_message_terms_are_long_words(lemmatizer, segments.drop_last(), term);
        } else {
            match segments.last() {
                Segment::Lemmatizable(text) => {
                    lemma_token_terms_are_long_words(lemmatizer, tokens_of(text), term);
                },
                Segment::Illemmatizable(_) => {},
            }
        }
    }
}

/// Each word that a thread is indexed under is the normal form of a word of
/// four characters or more.
pub proof fn lemma_thread_terms_are_long_words<L: Lemmatizer>(
    lemmatizer: &L,
    archive: Seq<MessageView>,
    members: Seq<usize>,
    term: Seq<char>,
)
    requires
        thread_terms(lemmatizer, archive, members).contains(term),
    ensures
        long_word_form(lemmatizer, term),
    decreases members.len(),
{
    let terms = thread_terms(lemmatizer, archive, members);
    let at = choose|i: int| 0 <= i < terms.len() && terms[i] == term;
    if members.len() > 0 {
        let before = thread_terms(lemmatizer, archive, members.drop_last());
        let segments = archive[members.last() as int].segments;
        if at < before.len() {
            lemma_thread_terms_are_long_words(lemmatizer, archive, members.drop_last(), term);
        } else {
            lemma_message_terms_are_long_words(lemmatizer, segments, term);
        }
    }
}

/// The threads that hold a word, in ascending order: what the index of an
/// archive lists under that word.
pub open spec fn threads_with_term<L: Lemmatizer>(
    lemmatizer: &L,
    archive: Seq<MessageView>,
    threads: Seq<Seq<usize>>,
    word: Seq<char>,
) -> Seq<usize> {
    ascending_ids(
        threads.len(),
        |t: int| thread_terms(lemmatizer, archive, threads[t]).contains(word),
    )
}

/// The inverted index. Each word has a place; the posting list of the word
/// stands at that place.
pub struct InvertedIndex {
    places: StringHashMap<usize>,
    postings: Vec<Vec<usize>>,
    words: Ghost<Seq<Seq<char>>>,
}

/// `after` is `before` with thread `id` registered under each of `terms`.
pub open spec fn registered(
    before: InvertedIndex,
    after: InvertedIndex,
    terms: Seq<Seq<char>>,
    id: usize,
) -> bool {
    forall|w: Seq<char>| #[trigger]
        after.posting(w) == if terms.contains(w) {
            with_id(before.posting(w), id)
        } else {
            before.posting(w)
        }
}

/// Registering nothing changes nothing.
pub proof fn lemma_registered_none(index: InvertedIndex, id: usize)
    ensures
        registered(index, index, Seq::empty(), id),
{
}

/// Registering some words and then some more registers all of them.
pub proof fn lemma_registered_both(
    a: InvertedIndex,
    b: InvertedIndex,
    c: InvertedIndex,
    first: Seq<Seq<char>>,
    second: Seq<Seq<char>>,
    id: usize,
)
    requires
        registered(a, b, first, id),
        registered(b, c, second, id),
    ensures
        registered(a, c, first + second, id),
{
    let all = first + second;
    assert forall|w: Seq<char>| #[trigger]
        c.posting(w) == if all.contains(w) {
            with_id(a.posting(w), id)
        } else {
            a.posting(w)
        } by {
        if first.contains(w) {
            let k = choose|k: int| 0 <= k < first.len() && first[k] == w;
            assert(all[k] == w);
        }
        if second.contains(w) {
            let k = choose|k: int| 0 <= k < second.len() && second[k] == w;
            assert(all[first.len() + k] == w);
        }
    }
}

impl InvertedIndex {
    /// Every word's place holds a strictly ascending posting list, and no
    /// two words share a place.
    pub closed spec fn wf(&self) -> bool {
        &&& self.words@.len() == self.postings@.len()
        &&& forall|w: Seq<char>| #[trigger]
            self.places@.contains_key(w) ==> self.places@[w] < self.postings@.len()
                && self.words@[self.places@[w] as int] == w
        &&& forall|k: int|
            0 <= k < self.postings@.len() ==> strictly_ascending((#[trigger] self.postings@[k])@)
    }

    /// The posting list of a word; empty for a word that the index does not
    /// hold.
    pub closed spec fn posting(&self, word: Seq<char>) -> Seq<usize> {
        if self.places@.contains_key(word) {
            self.postings@[self.places@[word] as int]@
        } else {
            Seq::empty()
        }
    }

    /// Every posting list is strictly ascending.
    pub proof fn lemma_posting_ascending(&self, word: Seq<char>)
        requires
            self.wf(),
        ensures
            strictly_ascending(self.posting(word)),
    {
    }

    /// An index that holds no word.
    pub fn new() -> (index: InvertedIndex)
        ensures
            index.wf(),
            forall|w: Seq<char>| #[trigger] index.posting(w) == Seq::<usize>::empty(),
    {
        InvertedIndex {
            places: StringHashMap::new(),
            postings: Vec::new(),
            words: Ghost(Seq::empty()),
        }
    }

    /// Registers a thread under a word: the thread is appended to the
    /// word's posting list unless the list already ends with it or with a
    /// later thread. No other posting list changes.
    pub fn register(&mut self, word: String, thread_id: usize)
        requires
            old(self).wf(),
        ensures
            final(self).wf(),
            registered(*old(self), *final(self), seq![word@], thread_id),
    {
        let ghost w = word@;
        let place = match self.places.get(word.as_str()) {
            Some(p) => Some(*p),
            None => None,
        };
        match place {
            Some(p) => {
                let len = self.postings[p].len();
                if len == 0 || self.postings[p][len - 1] < thread_id {
                    self.postings[p].push(thread_id);
                }
            },
            None => {
                let p = self.postings.len();
                let mut list: Vec<usize> = Vec::new();
                list.push(thread_id);
                self.postings.push(list);
                self.places.insert(word, p);
                proof {
                    self.words@ = self.words@.push(w);
                }
            },
        }
        proof {
            assert(seq![w][0] == w);
        }
    }

    /// The posting list of a word.
    pub fn lookup(&self, word: &str) -> (list: Vec<usize>)
        requires
            self.wf(),
        ensures
            list@ == self.posting(word@),
    {
        match self.places.get(word) {
            Some(p) => self.postings[*p].clone(),
            None => Vec::new(),
        }
    }
}

/// Registers a thread under the words of some pieces of text.
pub fn index_tokens<L: Lemmatizer>(
    index: &mut InvertedIndex,
    lemmatizer: &L,
    tokens: &Vec<Token>,
    thread_id: usize,
)
    requires
        old(index).wf(),
    ensures
        final(index).wf(),
        registered(
            *old(index),
            *final(index),
            token_terms(lemmatizer, token_views(tokens@)),
            thread_id,
        ),
{
    let ghost views = token_views(tokens@);
    let mut k: usize = 0;
    proof {
        lemma_registered_none(*index, thread_id);
    }
    while k < tokens.len()
        invariant
            k <= tokens.len(),
            views == token_views(tokens@),
            index.wf(),
            registered(
                *old(index),
                *index,
                token_terms(lemmatizer, views.take(k as int)),
                thread_id,
            ),
        decreases tokens.len() - k,
    {
        let ghost before = *index;
        let ghost done = token_terms(lemmatizer, views.take(k as int));
        proof {
            assert(views.take(k + 1).drop_last() =~= views.take(k as int));
        }
        match &tokens[k] {
            Token::Word(w) => {
                if w.as_str().unicode_len() >= MIN_INDEXED_CHARS {
                    let term = normalize(lemmatizer, w.as_str());
                    let ghost t = term@;
                    index.register(term, thread_id);
                    proof {
                        lemma_registered_both(
                            *old(index),
                            before,
                            *index,
                            done,
                            seq![t],
                            thread_id,
                        );
                        assert(done + seq![t] =~= done.push(t));
                    }
                }
            },
            Token::Separator(_) => {},
        }
        k = k + 1;
    }
    proof {
        assert(views.take(k as int) =~= views);
    }
}

/// Registers a thread under the words of one message.
pub fn index_message<L: Lemmatizer>(
    index: &mut InvertedIndex,
    lemmatizer: &L,
    message: &Message,
    thread_id: usize,
)
    requires
        old(index).wf(),
    ensures
        final(index).wf(),
        registered(
            *old(index),
            *final(index),
            message_terms(lemmatizer, message@.segments),
            thread_id,
        ),
{
    let ghost segments = message@.segments;
    let mut k: usize = 0;
    proof {
        lemma_registered_none(*index, thread_id);
    }
    while k < message.text_entities.len()
        invariant
            k <= message.text_entities.len(),
            segments == message@.segments,
            index.wf(),
            registered(
                *old(index),
                *index,
                message_terms(lemmatizer, segments.take(k as int)),
                thread_id,
            ),
        decreases message.text_entities.len() - k,
    {
        let ghost before = *index;
        let ghost done = message_terms(lemmatizer, segments.take(k as int));
        proof {
            assert(segments.take(k + 1).drop_last() =~= segments.take(k as int));
        }
        match &message.text_entities[k] {
            TextEntity::Lemmatizable(text) => {
                let tokens = tokenize(text.as_str());
                index_tokens(index, lemmatizer, &tokens, thread_id);
                proof {
                    lemma_registered_both(
                        *old(index),
                        before,
                        *index,
                        done,
                        token_terms(lemmatizer, tokens_of(text@)),
                        thread_id,
                    );
                }
            },
            TextEntity::Illemmatizable(_) => {},
        }
        k = k + 1;
    }
    proof {
        assert(segments.take(k as int) =~= segments);
    }
}

/// Registers a thread under the words of all its members.
pub fn index_thread<L: Lemmatizer>(
    index: &mut InvertedIndex,
    lemmatizer: &L,
    messages: &Vec<Message>,
    members: &Vec<usize>,
    thread_id: usize,
)
    requires
        old(index).wf(),
        forall|k: int| 0 <= k < members.len() ==> members[k] < messages.len(),
    ensures
        final(index).wf(),
        registered(
            *old(index),
            *final(index),
            thread_terms(lemmatizer, archive_view(messages@), members@),
            thread_id,
        ),
{
    let ghost archive = archive_view(messages@);
    let mut k: usize = 0;
    while k < members.len()
        invariant
            k <= members.len(),
            archive == archive_view(messages@),
            forall|k: int| 0 <= k < members.len() ==> members[k] < messages.len(),
            index.wf(),
            registered(
                *old(index),
                *index,
                thread_terms(lemmatizer, archive, members@.take(k as int)),
                thread_id,
            ),
        decreases members.len() - k,
    {
        let ghost before = *index;
        let ghost done = thread_terms(lemmatizer, archive, members@.take(k as int));
        proof {
            assert(members@.take(k + 1).drop_last() =~= members@.take(k as int));
        }
        let message = &messages[members[k]];
        index_message(index, lemmatizer, message, thread_id);
        proof {
            lemma_registered_both(
                *old(index),
                before,
                *index,
                done,
                message_terms(lemmatizer, message@.segments),
                thread_id,
            );
        }
        k = k + 1;
    }
    proof {
        assert(members@.take(k as int) =~= members@);
    }
}

/// Builds the index of an archive from its threads: each word's posting
/// list holds exactly the threads that hold the word.
pub fn build_index<L: Lemmatizer>(
    lemmatizer: &L,
    messages: &Vec<Message>,
    threads: &Vec<Vec<usize>>,
) -> (index: InvertedIndex)
    requires
        forall|t: int, k: int|
            0 <= t < threads.len() && 0 <= k < threads[t].len() ==> (#[trigger] threads[t][k])
                < messages.len(),
    ensures
        index.wf(),
        forall|w: Seq<char>| #[trigger]
            index.posting(w) == threads_with_term(
                lemmatizer,
                archive_view(messages@),
                seqs_of(threads@),
                w,
            ),
{
    let ghost archive = archive_view(messages@);
    let ghost listing = seqs_of(threads@);
    let mut index = InvertedIndex::new();
    let mut t: usize = 0;
    while t < threads.len()
        invariant
            t <= threads.len(),
            archive == archive_view(messages@),
            listing == seqs_of(threads@),
            forall|t: int, k: int|
                0 <= t < threads.len() && 0 <= k < threads[t].len() ==> (#[trigger] threads[t][k])
                    < messages.len(),
            index.wf(),
            forall|w: Seq<char>| #[trigger]
                index.posting(w) == ascending_ids(
                    t as nat,
                    |i: int| thread_terms(lemmatizer, archive, listing[i]).contains(w),
                ),
        decreases threads.len() - t,
    {
        index_thread(&mut index, lemmatizer, messages, &threads[t], t);
        proof {
            assert forall|w: Seq<char>| #[trigger]
                index.posting(w) == ascending_ids(
                    (t + 1) as nat,
                    |i: int| thread_terms(lemmatizer, archive, listing[i]).contains(w),
                ) by {
                let holds = |i: int| thread_terms(lemmatizer, archive, listing[i]).contains(w);
                let list = ascending_ids(t as nat, holds);
                lemma_ascending_ids(t as nat, holds);
                if list.len() > 0 {
                    assert(list.contains(list.last()));
                }
            }
        }
        t = t + 1;
    }
    index
}

} // verus!
