//! Highlighted text: the spans that a message is shown as, with the words
//! that a query asked for marked.

use crate::index::{segment_terms, token_terms, MIN_INDEXED_CHARS};
use crate::lemmatizer::{normal_form, Lemmatizer};
use crate::message::{plain_text, Segment};
use crate::text::{
    alphanumeric, lemma_run_end, lemma_tokens_spell_text, run_end, runs_from, tokens_of,
    tokens_text, TokenView,
};
use vstd::prelude::*;

verus! {

/// One span of shown text.
#[derive(Debug, PartialEq, Eq)]
pub enum Text {
    /// Text shown as it is.
    Plain(String),
    /// A word that the query asked for.
    Highlight(String),
}

/// What a span holds.
pub enum Span {
    Plain(Seq<char>),
    Highlight(Seq<char>),
}

impl View for Text {
    type V = Span;

    open spec fn view(&self) -> Span {
        match self {
            Text::Plain(t) => Span::Plain(t@),
            Text::Highlight(t) => Span::Highlight(t@),
        }
    }
}

impl Clone for Text {
    fn clone(&self) -> (out: Text)
        ensures
            out@ == self@,
    {
        match self {
            Text::Plain(t) => Text::Plain(t.clone()),
            Text::Highlight(t) => Text::Highlight(t.clone()),
        }
    }
}

/// What a list of spans holds.
pub open spec fn span_views(spans: Seq<Text>) -> Seq<Span> {
    Seq::new(spans.len(), |i: int| spans[i]@)
}

/// What a list of strings holds.
pub open spec fn string_views(strings: Seq<String>) -> Seq<Seq<char>> {
    Seq::new(strings.len(), |i: int| strings[i]@)
}

/// The span of a word whose normal form is `normalized`: highlighted where
/// the query words hold that form, plain otherwise. The word is shown as it
/// was written.
pub open spec fn word_span(
    word: Seq<char>,
    normalized: Seq<char>,
    query_words: Seq<Seq<char>>,
) -> Span {
    if query_words.contains(normalized) {
        Span::Highlight(word)
    } else {
        Span::Plain(word)
    }
}

/// The span of one piece of text: a word is held against the query words
/// by its normal form, whatever its length; a separator is plain.
pub open spec fn token_span<L: Lemmatizer>(
    lemmatizer: &L,
    token: TokenView,
    query_words: Seq<Seq<char>>,
) -> Span {
    match token {
        TokenView::Word(w) => word_span(w, normal_form(lemmatizer, w), query_words),
        TokenView::Separator(c) => Span::Plain(c),
    }
}

/// The spans of a stretch of prose: one for each word and one for each
/// character between the words.
pub open spec fn text_spans<L: Lemmatizer>(
    lemmatizer: &L,
    text: Seq<char>,
    query_words: Seq<Seq<char>>,
) -> Seq<Span> {
    Seq::new(
        tokens_of(text).len(),
        |i: int| token_span(lemmatizer, tokens_of(text)[i], query_words),
    )
}

/// The spans of one stretch of text: those of its pieces where it is prose,
/// the whole stretch as one plain span otherwise.
pub open spec fn segment_spans<L: Lemmatizer>(
    lemmatizer: &L,
    segment: Segment,
    query_words: Seq<Seq<char>>,
) -> Seq<Span> {
    match segment {
        Segment::Lemmatizable(text) => text_spans(lemmatizer, text, query_words),
        Segment::Illemmatizable(text) => seq![Span::Plain(text)],
    }
}

/// The spans of a message's text: those of its stretches, one after the
/// other.
pub open spec fn message_spans<L: Lemmatizer>(
    lemmatizer: &L,
    segments: Seq<Segment>,
    query_words: Seq<Seq<char>>,
) -> Seq<Span>
    decreases segments.len(),
{
    if segments.len() == 0 {
        Seq::empty()
    } else {
        message_spans(lemmatizer, segments.drop_last(), query_words) + segment_spans(
            lemmatizer,
            segments.last(),
            query_words,
        )
    }
}

/// Whether a list of words holds a word.
pub fn contains_word(words: &[String], word: &String) -> (found: bool)
    ensures
        found == string_views(words@).contains(word@),
{
    let mut i: usize = 0;
    while i < words.len()
        invariant
            i <= words.len(),
            forall|k: int| 0 <= k < i ==> string_views(words@)[k] != word@,
        decreases words.len() - i,
    {
        if words[i] == *word {
            assert(string_views(words@)[i as int] == word@);
            return true;
        }
        i = i + 1;
    }
    false
}

/// The span of a word, given its normal form.
pub fn mark_word(word: String, normalized: &String, query_words: &[String]) -> (out: Text)
    ensures
        out@ == word_span(word@, normalized@, string_views(query_words@)),
{
    if contains_word(query_words, normalized) {
        Text::Highlight(word)
    } else {
        Text::Plain(word)
    }
}

/// A text that is one word has that word as its only piece.
pub proof fn lemma_single_word(word: Seq<char>)
    requires
        word.len() > 0,
        forall|i: int| 0 <= i < word.len() ==> alphanumeric(#[trigger] word[i]),
    ensures
        tokens_of(word) == seq![TokenView::Word(word)],
{
    let marks = Seq::new(word.len(), |i: int| alphanumeric(word[i]));
    lemma_run_end(marks, 0);
    let end = run_end(marks, 0);
    assert(word.subrange(0, end) =~= word);
    assert(runs_from(word, marks, end) =~= Seq::<TokenView>::empty());
}

/// The length filter applies to indexing alone. A word of fewer than four
/// characters is never indexed, yet it is highlighted where the query words
/// hold its normal form.
pub proof fn lemma_short_word_highlighted_not_indexed<L: Lemmatizer>(
    lemmatizer: &L,
    word: Seq<char>,
    query_words: Seq<Seq<char>>,
)
    requires
        0 < word.len() < MIN_INDEXED_CHARS,
        forall|i: int| 0 <= i < word.len() ==> alphanumeric(#[trigger] word[i]),
        query_words.contains(normal_form(lemmatizer, word)),
    ensures
        segment_terms(lemmatizer, Segment::Lemmatizable(word)) == Seq::<Seq<char>>::empty(),
        text_spans(lemmatizer, word, query_words) == seq![Span::Highlight(word)],
{
    lemma_single_word(word);
    let tokens = tokens_of(word);
    assert(token_terms(lemmatizer, tokens.drop_last()) =~= Seq::<Seq<char>>::empty());
}

/// A word of four characters or more is indexed under its normal form, and
/// highlighted where the query words hold that form.
pub proof fn lemma_long_word_highlighted_and_indexed<L: Lemmatizer>(
    lemmatizer: &L,
    word: Seq<char>,
    query_words: Seq<Seq<char>>,
)
    requires
        word.len() >= MIN_INDEXED_CHARS,
        forall|i: int| 0 <= i < word.len() ==> alphanumeric(#[trigger] word[i]),
        query_words.contains(normal_form(lemmatizer, word)),
    ensures
        segment_terms(lemmatizer, Segment::Lemmatizable(word)) == seq![
            normal_form(lemmatizer, word),
        ],
        text_spans(lemmatizer, word, query_words) == seq![Span::Highlight(word)],
{
    lemma_single_word(word);
    let tokens = tokens_of(word);
    assert(token_terms(lemmatizer, tokens.drop_last()) =~= Seq::<Seq<char>>::empty());
}

/// The characters of a span, marked or not.
pub open spec fn span_text(span: Span) -> Seq<char> {
    match span {
        Span::Plain(t) => t,
        Span::Highlight(t) => t,
    }
}

/// The characters of some spans, one span after the other.
pub open spec fn spans_text(spans: Seq<Span>) -> Seq<char>
    decreases spans.len(),
{
    if spans.len() == 0 {
        Seq::empty()
    } else {
        spans_text(spans.drop_last()) + span_text(spans.last())
    }
}

/// Spans in front put their characters in front.
pub proof fn lemma_spans_text_concat(front: Seq<Span>, back: Seq<Span>)
    ensures
        spans_text(front + back) == spans_text(front) + spans_text(back),
    decreases back.len(),
{
    if back.len() > 0 {
        assert((front + back).drop_last() =~= front + back.drop_last());
        lemma_spans_text_concat(front, back.drop_last());
    }
}

/// The spans of some pieces spell what the pieces spell.
proof fn lemma_token_spans_spell<L: Lemmatizer>(
    lemmatizer: &L,
    tokens: Seq<TokenView>,
    query_words: Seq<Seq<char>>,
)
    ensures
        spans_text(Seq::new(tokens.len(), |i: int| token_span(lemmatizer, tokens[i], query_words)))
            == tokens_text(tokens),
    decreases tokens.len(),
{
    let spans = Seq::new(tokens.len(), |i: int| token_span(lemmatizer, tokens[i], query_words));
    if tokens.len() > 0 {
        let shorter = tokens.drop_last();
        lemma_token_spans_spell(lemmatizer, shorter, query_words);
        assert(spans.drop_last() =~= Seq::new(
            shorter.len(),
            |i: int| token_span(lemmatizer, shorter[i], query_words),
        ));
    }
}

/// Highlighting changes no character: the spans of a stretch of prose spell
/// that stretch, punctuation, spacing and case as they were written.
pub proof fn lemma_spans_spell_text<L: Lemmatizer>(
    lemmatizer: &L,
    text: Seq<char>,
    query_words: Seq<Seq<char>>,
)
    ensures
        spans_text(text_spans(lemmatizer, text, query_words)) == text,
{
    lemma_token_spans_spell(lemmatizer, tokens_of(text), query_words);
    lemma_tokens_spell_text(text);
}

/// The spans of a message spell the message's plain text.
pub proof fn lemma_spans_spell_message<L: Lemmatizer>(
    lemmatizer: &L,
    segments: Seq<Segment>,
    query_words: Seq<Seq<char>>,
)
    ensures
        spans_text(message_spans(lemmatizer, segments, query_words)) == plain_text(segments),
    decreases segments.len(),
{
    if segments.len() > 0 {
        let before = message_spans(lemmatizer, segments.drop_last(), query_words);
        let last = segment_spans(lemmatizer, segments.last(), query_words);
        lemma_spans_spell_message(lemmatizer, segments.drop_last(), query_words);
        lemma_spans_text_concat(before, last);
        match segments.last() {
            Segment::Lemmatizable(text) => {
                lemma_spans_spell_text(lemmatizer, text, query_words);
            },
            Segment::Illemmatizable(text) => {
                assert(last.drop_last() =~= Seq::<Span>::empty());
                assert(spans_text(Seq::<Span>::empty()) =~= Seq::<char>::empty());
            },
        }
    }
}

} // verus!
