//! Characters and words: what the standard library decides about a
//! character or a string, and the cutting of text into words and separators.

use vstd::prelude::*;

verus! {

/// Whether a character is alphanumeric in the sense of
/// `char::is_alphanumeric`.
pub uninterp spec fn alphanumeric(c: char) -> bool;

/// The lower-case form of a string in the sense of `str::to_lowercase`.
pub uninterp spec fn lowercase(s: Seq<char>) -> Seq<char>;

/// `char::is_alphanumeric` is a function of the character alone (it reads
/// the Unicode tables that the standard library was built with); its answer
/// is given the name `alphanumeric`.
pub assume_specification[ char::is_alphanumeric ](c: char) -> (r: bool)
    ensures
        r == alphanumeric(c),
;

/// `str::to_lowercase` returns a new string that depends on the characters
/// of its argument alone; that string is given the name `lowercase`.
pub assume_specification[ str::to_lowercase ](s: &str) -> (r: String)
    ensures
        r@ == lowercase(s@),
;

/// `String::push` appends the character to the end of the string.
pub assume_specification[ String::push ](s: &mut String, c: char)
    ensures
        final(s)@ == old(s)@.push(c),
;

/// A piece of text: a word, or one character that belongs to no word.
#[derive(Debug, PartialEq, Eq)]
pub enum Token {
    Word(String),
    Separator(char),
}

/// What a token holds: the characters of a word, or the one character of a
/// separator.
pub enum TokenView {
    Word(Seq<char>),
    Separator(Seq<char>),
}

impl View for Token {
    type V = TokenView;

    open spec fn view(&self) -> TokenView {
        match self {
            Token::Word(w) => TokenView::Word(w@),
            Token::Separator(c) => TokenView::Separator(seq![*c]),
        }
    }
}

/// What a list of tokens holds.
pub open spec fn token_views(tokens: Seq<Token>) -> Seq<TokenView> {
    Seq::new(tokens.len(), |i: int| tokens[i]@)
}

/// Where the run of marked positions that starts at `from` ends: the first
/// unmarked position at or after `from`, or the length.
pub open spec fn run_end(marks: Seq<bool>, from: int) -> int
    decreases marks.len() - from,
{
    if 0 <= from < marks.len() && marks[from] {
        run_end(marks, from + 1)
    } else {
        from
    }
}

/// A run ends at or after its start and within the sequence; it is marked
/// throughout, and the position after it is not.
pub proof fn lemma_run_end(marks: Seq<bool>, from: int)
    requires
        0 <= from <= marks.len(),
    ensures
        from <= run_end(marks, from) <= marks.len(),
        from < marks.len() && marks[from] ==> from < run_end(marks, from),
        forall|k: int| from <= k < run_end(marks, from) ==> marks[k],
        run_end(marks, from) < marks.len() ==> !marks[run_end(marks, from)],
    decreases marks.len() - from,
{
    if from < marks.len() && marks[from] {
        lemma_run_end(marks, from + 1);
    }
}

/// The pieces of `chars` from position `from` on: each maximal run of
/// marked characters is one word, each unmarked character one separator.
pub open spec fn runs_from(chars: Seq<char>, marks: Seq<bool>, from: int) -> Seq<TokenView>
    decreases chars.len() - from,
{
    if from < 0 || from >= chars.len() || marks.len() != chars.len() {
        Seq::empty()
    } else if marks[from] {
        let end = run_end(marks, from);
        proof {
            lemma_run_end(marks, from);
        }
        seq![TokenView::Word(chars.subrange(from, end))] + runs_from(chars, marks, end)
    } else {
        seq![TokenView::Separator(chars.subrange(from, from + 1))] + runs_from(
            chars,
            marks,
            from + 1,
        )
    }
}

/// The pieces of `chars` under the marking `marks`; none where the two
/// differ in length.
pub open spec fn runs(chars: Seq<char>, marks: Seq<bool>) -> Seq<TokenView> {
    runs_from(chars, marks, 0)
}

/// The pieces of a text: its maximal runs of alphanumeric characters are
/// the words, every other character is a separator.
pub open spec fn tokens_of(text: Seq<char>) -> Seq<TokenView> {
    runs(text, Seq::new(text.len(), |i: int| alphanumeric(text[i])))
}

/// How many characters a piece of text holds.
pub open spec fn token_len(token: TokenView) -> nat {
    match token {
        TokenView::Word(w) => w.len(),
        TokenView::Separator(c) => c.len(),
    }
}

/// How many characters some pieces of text hold together.
pub open spec fn tokens_len(tokens: Seq<TokenView>) -> nat
    decreases tokens.len(),
{
    if tokens.len() == 0 {
        0
    } else {
        tokens_len(tokens.drop_last()) + token_len(tokens.last())
    }
}

/// Pieces in front add their characters.
pub proof fn lemma_tokens_len_concat(front: Seq<TokenView>, back: Seq<TokenView>)
    ensures
        tokens_len(front + back) == tokens_len(front) + tokens_len(back),
    decreases back.len(),
{
    if back.len() > 0 {
        assert((front + back).drop_last() =~= front + back.drop_last());
        lemma_tokens_len_concat(front, back.drop_last());
    }
}

/// The pieces from a position on hold the characters from that position
/// on, each once.
pub proof fn lemma_runs_len(chars: Seq<char>, marks: Seq<bool>, from: int)
    requires
        0 <= from <= chars.len(),
        marks.len() == chars.len(),
    ensures
        tokens_len(runs_from(chars, marks, from)) == chars.len() - from,
    decreases chars.len() - from,
{
    if from < chars.len() {
        if marks[from] {
            let end = run_end(marks, from);
            lemma_run_end(marks, from);
            let head = seq![TokenView::Word(chars.subrange(from, end))];
            lemma_runs_len(chars, marks, end);
            lemma_tokens_len_concat(head, runs_from(chars, marks, end));
            assert(head.drop_last() =~= Seq::<TokenView>::empty());
            assert(tokens_len(Seq::<TokenView>::empty()) == 0);
        } else {
            let head = seq![TokenView::Separator(chars.subrange(from, from + 1))];
            lemma_runs_len(chars, marks, from + 1);
            lemma_tokens_len_concat(head, runs_from(chars, marks, from + 1));
            assert(head.drop_last() =~= Seq::<TokenView>::empty());
            assert(tokens_len(Seq::<TokenView>::empty()) == 0);
        }
    }
}

/// The pieces of a text hold as many characters as the text.
pub proof fn lemma_tokens_len(text: Seq<char>)
    ensures
        tokens_len(tokens_of(text)) == text.len(),
{
    lemma_runs_len(text, Seq::new(text.len(), |i: int| alphanumeric(text[i])), 0);
}

/// The first pieces of a list hold no more characters than the list.
pub proof fn lemma_tokens_len_take(tokens: Seq<TokenView>, k: int)
    requires
        0 <= k <= tokens.len(),
    ensures
        tokens_len(tokens.take(k)) <= tokens_len(tokens),
{
    assert(tokens.take(k) + tokens.skip(k) =~= tokens);
    lemma_tokens_len_concat(tokens.take(k), tokens.skip(k));
}

/// The characters of a piece of text.
pub open spec fn token_text(token: TokenView) -> Seq<char> {
    match token {
        TokenView::Word(w) => w,
        TokenView::Separator(c) => c,
    }
}

/// The characters of some pieces of text, one piece after the other.
pub open spec fn tokens_text(tokens: Seq<TokenView>) -> Seq<char>
    decreases tokens.len(),
{
    if tokens.len() == 0 {
        Seq::empty()
    } else {
        tokens_text(tokens.drop_last()) + token_text(tokens.last())
    }
}

/// Pieces in front put their characters in front.
pub proof fn lemma_tokens_text_concat(front: Seq<TokenView>, back: Seq<TokenView>)
    ensures
        tokens_text(front + back) == tokens_text(front) + tokens_text(back),
    decreases back.len(),
{
    if back.len() > 0 {
        assert((front + back).drop_last() =~= front + back.drop_last());
        lemma_tokens_text_concat(front, back.drop_last());
    }
}

/// The pieces from a position on spell the characters from that position
/// on.
pub proof fn lemma_runs_text(chars: Seq<char>, marks: Seq<bool>, from: int)
    requires
        0 <= from <= chars.len(),
        marks.len() == chars.len(),
    ensures
        tokens_text(runs_from(chars, marks, from)) == chars.skip(from),
    decreases chars.len() - from,
{
    if from < chars.len() {
        let end = if marks[from] {
            run_end(marks, from)
        } else {
            from + 1
        };
        let piece = if marks[from] {
            TokenView::Word(chars.subrange(from, end))
        } else {
            TokenView::Separator(chars.subrange(from, end))
        };
        let head = seq![piece];
        lemma_run_end(marks, from);
        lemma_runs_text(chars, marks, end);
        lemma_tokens_text_concat(head, runs_from(chars, marks, end));
        assert(head.drop_last() =~= Seq::<TokenView>::empty());
        assert(tokens_text(Seq::<TokenView>::empty()) =~= Seq::<char>::empty());
    }
}

/// Cutting a text loses and adds no character: the pieces spell the text.
pub proof fn lemma_tokens_spell_text(text: Seq<char>)
    ensures
        tokens_text(tokens_of(text)) == text,
{
    lemma_runs_text(text, Seq::new(text.len(), |i: int| alphanumeric(text[i])), 0);
}

/// The characters of a string.
pub fn chars_of(text: &str) -> (out: Vec<char>)
    ensures
        out@ == text@,
{
    let mut out: Vec<char> = Vec::new();
    for c in it: text.chars()
        invariant
            it.seq() == text@,
            out@ == it.seq().take(it.index() as int),
    {
        out.push(c);
    }
    out
}

/// The character at a position.
fn char_at(chars: &Vec<char>, i: usize) -> (c: char)
    requires
        i < chars.len(),
    ensures
        c == chars@[i as int],
{
    chars[i]
}

/// For each character, whether it is alphanumeric.
pub fn mark_alphanumeric(chars: &Vec<char>) -> (marks: Vec<bool>)
    ensures
        marks@ == Seq::new(chars@.len(), |i: int| alphanumeric(chars@[i])),
{
    let mut marks: Vec<bool> = Vec::new();
    let mut i: usize = 0;
    while i < chars.len()
        invariant
            i <= chars.len(),
            marks.len() == i,
            forall|k: int| 0 <= k < i ==> marks[k] == alphanumeric(chars@[k]),
        decreases chars.len() - i,
    {
        marks.push(char_at(chars, i).is_alphanumeric());
        i = i + 1;
    }
    marks
}

/// Cuts `chars` into words and separators: each maximal run of marked
/// characters becomes one word, each unmarked character one separator.
/// Nothing comes out where the marking does not fit the characters.
pub fn split_runs(chars: &Vec<char>, marks: &Vec<bool>) -> (out: Vec<Token>)
    ensures
        token_views(out@) == runs(chars@, marks@),
{
    let mut out: Vec<Token> = Vec::new();
    let n = chars.len();
    if marks.len() != n {
        return out;
    }
    let mut pos: usize = 0;
    while pos < n
        invariant
            pos <= n,
            n == chars.len(),
            n == marks.len(),
            token_views(out@) + runs_from(chars@, marks@, pos as int) == runs(chars@, marks@),
        decreases n - pos,
    {
        let ghost start = pos as int;
        if marks[pos] {
            let mut word = String::new();
            while pos < n && marks[pos]
                invariant
                    0 <= start <= pos <= n,
                    n == chars.len(),
                    n == marks.len(),
                    word@ == chars@.subrange(start, pos as int),
                    run_end(marks@, pos as int) == run_end(marks@, start),
                decreases n - pos,
            {
                word.push(char_at(chars, pos));
                pos = pos + 1;
            }
            out.push(Token::Word(word));
        } else {
            out.push(Token::Separator(char_at(chars, pos)));
            pos = pos + 1;
            proof {
                assert(chars@.subrange(start, start + 1) =~= seq![chars@[start]]);
            }
        }
    }
    out
}

/// Cuts a text into its words and separators.
pub fn tokenize(text: &str) -> (out: Vec<Token>)
    ensures
        token_views(out@) == tokens_of(text@),
{
    let chars = chars_of(text);
    let marks = mark_alphanumeric(&chars);
    split_runs(&chars, &marks)
}

/// The string that holds one character.
pub fn char_string(c: char) -> (out: String)
    ensures
        out@ == seq![c],
{
    let mut out = String::new();
    out.push(c);
    out
}

} // verus!
