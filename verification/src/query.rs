//! Queries: the tree of a boolean query, and the reading of a query string
//! into that tree.
//!
//! A query string is cut into pieces like any text. Its words are the query
//! words, but for `AND` and `OR` in capitals, which are the operators; round
//! brackets group; every other character only separates. `AND` binds more
//! tightly than `OR`, and both group to the left.

use crate::error::SearchError;
use crate::grammar::{lemma_failure_means_no_query, lemma_reading_is_sound, spells_expr};
use crate::text::{
    chars_of, lemma_tokens_len, lemma_tokens_len_take, token_views, tokenize, tokens_len,
    tokens_of, Token, TokenView,
};
use vstd::prelude::*;

verus! {

/// A boolean query over words.
#[derive(Debug, PartialEq, Eq)]
pub enum SearchQuery {
    /// The threads that hold the word.
    Word(String),
    /// The threads that match both queries.
    And(Box<SearchQuery>, Box<SearchQuery>),
    /// The threads that match either query.
    Or(Box<SearchQuery>, Box<SearchQuery>),
}

/// What a query holds.
pub enum QueryView {
    Word(Seq<char>),
    And(Box<QueryView>, Box<QueryView>),
    Or(Box<QueryView>, Box<QueryView>),
}

/// What a query holds, subtree by subtree.
pub open spec fn query_view(query: SearchQuery) -> QueryView
    decreases query,
{
    match query {
        SearchQuery::Word(w) => QueryView::Word(w@),
        SearchQuery::And(l, r) => QueryView::And(
            Box::new(query_view(*l)),
            Box::new(query_view(*r)),
        ),
        SearchQuery::Or(l, r) => QueryView::Or(Box::new(query_view(*l)), Box::new(query_view(*r))),
    }
}

impl View for SearchQuery {
    type V = QueryView;

    open spec fn view(&self) -> QueryView {
        query_view(*self)
    }
}

/// One piece of a query string that the grammar knows.
#[derive(Debug, PartialEq, Eq)]
pub enum QueryToken {
    Word(String),
    And,
    Or,
    Open,
    Close,
}

/// What a piece of a query string holds.
pub enum QueryTokenView {
    Word(Seq<char>),
    And,
    Or,
    Open,
    Close,
}

impl View for QueryToken {
    type V = QueryTokenView;

    open spec fn view(&self) -> QueryTokenView {
        match self {
            QueryToken::Word(w) => QueryTokenView::Word(w@),
            QueryToken::And => QueryTokenView::And,
            QueryToken::Or => QueryTokenView::Or,
            QueryToken::Open => QueryTokenView::Open,
            QueryToken::Close => QueryTokenView::Close,
        }
    }
}

/// A piece of a query string with the place of its first character,
/// counted in characters.
#[derive(Debug, PartialEq, Eq)]
pub struct Lexeme {
    pub token: QueryToken,
    pub position: usize,
}

/// What a placed piece holds.
pub struct LexemeView {
    pub token: QueryTokenView,
    pub position: nat,
}

impl View for Lexeme {
    type V = LexemeView;

    open spec fn view(&self) -> LexemeView {
        LexemeView { token: self.token@, position: self.position as nat }
    }
}

/// What a list of placed pieces holds.
pub open spec fn lexeme_views(lexemes: Seq<Lexeme>) -> Seq<LexemeView> {
    Seq::new(lexemes.len(), |i: int| lexemes[i]@)
}

/// The pieces of a list of placed pieces, without their places.
pub open spec fn kinds(lexemes: Seq<LexemeView>) -> Seq<QueryTokenView> {
    Seq::new(lexemes.len(), |i: int| lexemes[i].token)
}

/// The word that stands for conjunction.
pub open spec fn keyword_and() -> Seq<char> {
    seq!['A', 'N', 'D']
}

/// The word that stands for disjunction.
pub open spec fn keyword_or() -> Seq<char> {
    seq!['O', 'R']
}

/// What a piece of text means in a query: a word is an operator or a query
/// word, a round bracket is itself, and any other separator means nothing.
pub open spec fn query_token(token: TokenView) -> Option<QueryTokenView> {
    match token {
        TokenView::Word(w) => Some(
            if w == keyword_and() {
                QueryTokenView::And
            } else if w == keyword_or() {
                QueryTokenView::Or
            } else {
                QueryTokenView::Word(w)
            },
        ),
        TokenView::Separator(c) => if c == seq!['('] {
            Some(QueryTokenView::Open)
        } else if c == seq![')'] {
            Some(QueryTokenView::Close)
        } else {
            None
        },
    }
}

/// The pieces of a query among some pieces of text, each with the number of
/// characters in front of it.
pub open spec fn lex(tokens: Seq<TokenView>) -> Seq<LexemeView>
    decreases tokens.len(),
{
    if tokens.len() == 0 {
        Seq::empty()
    } else {
        let before = lex(tokens.drop_last());
        match query_token(tokens.last()) {
            Some(token) => before.push(
                LexemeView { token, position: tokens_len(tokens.drop_last()) },
            ),
            None => before,
        }
    }
}

/// How far the reading of a query got.
pub enum Parsed {
    /// A query was read; `next` is the first piece behind it.
    Done { query: QueryView, next: int },
    /// The piece at `at` cannot stand where it stands (`at` is the number
    /// of pieces where the input ends too early).
    Failed { at: int },
}

/// Reads a word or a bracketed query at piece `i`.
pub open spec fn parse_factor(ts: Seq<QueryTokenView>, i: int) -> Parsed
    decreases ts.len() - i, 0int,
{
    if 0 <= i < ts.len() {
        match ts[i] {
            QueryTokenView::Word(w) => Parsed::Done { query: QueryView::Word(w), next: i + 1 },
            QueryTokenView::Open => match parse_expr(ts, i + 1) {
                Parsed::Done { query, next } => if 0 <= next < ts.len() && ts[next]
                    == QueryTokenView::Close {
                    Parsed::Done { query, next: next + 1 }
                } else {
                    Parsed::Failed { at: next }
                },
                Parsed::Failed { at } => Parsed::Failed { at },
            },
            _ => Parsed::Failed { at: i },
        }
    } else {
        Parsed::Failed { at: i }
    }
}

/// Goes on reading a conjunction: `acc` was read, piece `i` comes next.
pub open spec fn term_rest(ts: Seq<QueryTokenView>, i: int, acc: QueryView) -> Parsed
    decreases ts.len() - i, 1int,
{
    if 0 <= i < ts.len() && ts[i] == QueryTokenView::And {
        match parse_factor(ts, i + 1) {
            Parsed::Done { query, next } => if i < next <= ts.len() {
                term_rest(ts, next, QueryView::And(Box::new(acc), Box::new(query)))
            } else {
                Parsed::Failed { at: i }
            },
            Parsed::Failed { at } => Parsed::Failed { at },
        }
    } else {
        Parsed::Done { query: acc, next: i }
    }
}

/// Reads factors joined by `AND` at piece `i`, as many as there are.
pub open spec fn parse_term(ts: Seq<QueryTokenView>, i: int) -> Parsed
    decreases ts.len() - i, 2int,
{
    match parse_factor(ts, i) {
        Parsed::Done { query, next } => if i < next <= ts.len() {
            term_rest(ts, next, query)
        } else {
            Parsed::Failed { at: i }
        },
        Parsed::Failed { at } => Parsed::Failed { at },
    }
}

/// Goes on reading a disjunction: `acc` was read, piece `i` comes next.
pub open spec fn expr_rest(ts: Seq<QueryTokenView>, i: int, acc: QueryView) -> Parsed
    decreases ts.len() - i, 3int,
{
    if 0 <= i < ts.len() && ts[i] == QueryTokenView::Or {
        match parse_term(ts, i + 1) {
            Parsed::Done { query, next } => if i < next <= ts.len() {
                expr_rest(ts, next, QueryView::Or(Box::new(acc), Box::new(query)))
            } else {
                Parsed::Failed { at: i }
            },
            Parsed::Failed { at } => Parsed::Failed { at },
        }
    } else {
        Parsed::Done { query: acc, next: i }
    }
}

/// Reads terms joined by `OR` at piece `i`, as many as there are.
pub open spec fn parse_expr(ts: Seq<QueryTokenView>, i: int) -> Parsed
    decreases ts.len() - i, 4int,
{
    match parse_term(ts, i) {
        Parsed::Done { query, next } => if i < next <= ts.len() {
            expr_rest(ts, next, query)
        } else {
            Parsed::Failed { at: i }
        },
        Parsed::Failed { at } => Parsed::Failed { at },
    }
}

/// Reads the pieces as one query that uses all of them.
pub open spec fn parse_all(ts: Seq<QueryTokenView>) -> Parsed {
    match parse_expr(ts, 0) {
        Parsed::Done { query, next } => if next == ts.len() {
            Parsed::Done { query, next }
        } else {
            Parsed::Failed { at: next }
        },
        Parsed::Failed { at } => Parsed::Failed { at },
    }
}

/// The place in the text of the piece at `at`; the length of the text where
/// the pieces end before `at`.
pub open spec fn place_of(lexemes: Seq<LexemeView>, at: int, text_len: nat) -> nat {
    if 0 <= at < lexemes.len() {
        lexemes[at].position
    } else {
        text_len
    }
}

/// What a query string reads as: its query, or the place of the piece that
/// cannot stand where it stands.
pub open spec fn parse_text(text: Seq<char>) -> Result<QueryView, nat> {
    let lexemes = lex(tokens_of(text));
    match parse_all(kinds(lexemes)) {
        Parsed::Done { query, next } => Ok(query),
        Parsed::Failed { at } => Err(place_of(lexemes, at, text.len())),
    }
}

/// The words of a query string, operators left out, in order.
pub open spec fn words_of(lexemes: Seq<LexemeView>) -> Seq<Seq<char>>
    decreases lexemes.len(),
{
    if lexemes.len() == 0 {
        Seq::empty()
    } else {
        let before = words_of(lexemes.drop_last());
        match lexemes.last().token {
            QueryTokenView::Word(w) => before.push(w),
            _ => before,
        }
    }
}

/// The readers of the grammar: each reads one sort of phrase, or goes on
/// with a phrase that has begun.
pub enum Reader {
    Factor,
    TermRest,
    Term,
    ExprRest,
    Expr,
}

impl Reader {
    /// What the reader finds at piece `i`; `acc` is what was read so far,
    /// for the readers that go on.
    pub open spec fn reads(self, ts: Seq<QueryTokenView>, i: int, acc: QueryView) -> Parsed {
        match self {
            Reader::Factor => parse_factor(ts, i),
            Reader::TermRest => term_rest(ts, i, acc),
            Reader::Term => parse_term(ts, i),
            Reader::ExprRest => expr_rest(ts, i, acc),
            Reader::Expr => parse_expr(ts, i),
        }
    }

    /// A reader that begins a phrase uses at least one piece.
    pub open spec fn begins(self) -> bool {
        self is Factor || self is Term || self is Expr
    }

    /// The readers in the order in which one calls the other at the same
    /// piece.
    pub open spec fn depth(self) -> int {
        match self {
            Reader::Factor => 0,
            Reader::TermRest => 1,
            Reader::Term => 2,
            Reader::ExprRest => 3,
            Reader::Expr => 4,
        }
    }
}

/// A reading ends within the pieces, behind where it began if the reader
/// begins a phrase; a failure names a piece at or behind the beginning, or
/// the end of the pieces.
pub proof fn lemma_parse_bounds(ts: Seq<QueryTokenView>, i: int, reader: Reader, acc: QueryView)
    requires
        0 <= i <= ts.len(),
    ensures
        match reader.reads(ts, i, acc) {
            Parsed::Done { query, next } => i <= next <= ts.len() && (reader.begins() ==> i
                < next),
            Parsed::Failed { at } => i <= at <= ts.len(),
        },
    decreases ts.len() - i, reader.depth(),
{
    match reader {
        Reader::Factor => {
            if i < ts.len() && ts[i] == QueryTokenView::Open {
                lemma_parse_bounds(ts, i + 1, Reader::Expr, acc);
            }
        },
        Reader::TermRest => {
            if i < ts.len() && ts[i] == QueryTokenView::And {
                lemma_parse_bounds(ts, i + 1, Reader::Factor, acc);
                match parse_factor(ts, i + 1) {
                    Parsed::Done { query, next } => {
                        lemma_parse_bounds(
                            ts,
                            next,
                            Reader::TermRest,
                            QueryView::And(Box::new(acc), Box::new(query)),
                        );
                    },
                    Parsed::Failed { at } => {},
                }
            }
        },
        Reader::Term => {
            lemma_parse_bounds(ts, i, Reader::Factor, acc);
            match parse_factor(ts, i) {
                Parsed::Done { query, next } => {
                    lemma_parse_bounds(ts, next, Reader::TermRest, query);
                },
                Parsed::Failed { at } => {},
            }
        },
        Reader::ExprRest => {
            if i < ts.len() && ts[i] == QueryTokenView::Or {
                lemma_parse_bounds(ts, i + 1, Reader::Term, acc);
                match parse_term(ts, i + 1) {
                    Parsed::Done { query, next } => {
                        lemma_parse_bounds(
                            ts,
                            next,
                            Reader::ExprRest,
                            QueryView::Or(Box::new(acc), Box::new(query)),
                        );
                    },
                    Parsed::Failed { at } => {},
                }
            }
        },
        Reader::Expr => {
            lemma_parse_bounds(ts, i, Reader::Term, acc);
            match parse_term(ts, i) {
                Parsed::Done { query, next } => {
                    lemma_parse_bounds(ts, next, Reader::ExprRest, query);
                },
                Parsed::Failed { at } => {},
            }
        },
    }
}

/// Whether the characters spell `AND`.
fn spells_and(chars: &Vec<char>) -> (yes: bool)
    ensures
        yes == (chars@ == keyword_and()),
{
    let yes = chars.len() == 3 && chars[0] == 'A' && chars[1] == 'N' && chars[2] == 'D';
    proof {
        if yes {
            assert(chars@ =~= keyword_and());
        }
        assert(keyword_and().len() == 3);
    }
    yes
}

/// Whether the characters spell `OR`.
fn spells_or(chars: &Vec<char>) -> (yes: bool)
    ensures
        yes == (chars@ == keyword_or()),
{
    let yes = chars.len() == 2 && chars[0] == 'O' && chars[1] == 'R';
    proof {
        if yes {
            assert(chars@ =~= keyword_or());
        }
        assert(keyword_or().len() == 2);
    }
    yes
}

/// Cuts a query string into the pieces that the grammar knows.
pub fn lex_query(text: &str) -> (out: Vec<Lexeme>)
    ensures
        lexeme_views(out@) == lex(tokens_of(text@)),
{
    let tokens = tokenize(text);
    let text_len = text.unicode_len();
    let ghost views = token_views(tokens@);
    let mut out: Vec<Lexeme> = Vec::new();
    let mut position: usize = 0;
    let mut k: usize = 0;
    proof {
        lemma_tokens_len(text@);
    }
    while k < tokens.len()
        invariant
            k <= tokens.len(),
            views == token_views(tokens@),
            tokens_len(views) == text_len,
            position == tokens_len(views.take(k as int)),
            lexeme_views(out@) == lex(views.take(k as int)),
        decreases tokens.len() - k,
    {
        proof {
            assert(views.take(k + 1).drop_last() =~= views.take(k as int));
            lemma_tokens_len_take(views, k + 1);
        }
        match &tokens[k] {
            Token::Word(w) => {
                let chars = chars_of(w.as_str());
                let token = if spells_and(&chars) {
                    QueryToken::And
                } else if spells_or(&chars) {
                    QueryToken::Or
                } else {
                    QueryToken::Word(w.clone())
                };
                out.push(Lexeme { token, position });
                position = position + chars.len();
            },
            Token::Separator(c) => {
                let ghost sep = seq![*c];
                if *c == '(' {
                    out.push(Lexeme { token: QueryToken::Open, position });
                    proof {
                        assert(sep =~= seq!['(']);
                    }
                } else if *c == ')' {
                    out.push(Lexeme { token: QueryToken::Close, position });
                    proof {
                        assert(sep =~= seq![')']);
                        assert(sep != seq!['(']) by {
                            assert(sep[0] != seq!['('][0]);
                        }
                    }
                } else {
                    proof {
                        assert(sep != seq!['(']) by {
                            assert(sep[0] != seq!['('][0]);
                        }
                        assert(sep != seq![')']) by {
                            assert(sep[0] != seq![')'][0]);
                        }
                    }
                }
                position = position + 1;
            },
        }
        k = k + 1;
    }
    proof {
        assert(views.take(k as int) =~= views);
    }
    out
}

/// The outcome of a reading step says what the grammar says.
pub open spec fn agrees(r: Result<(SearchQuery, usize), usize>, parsed: Parsed) -> bool {
    match parsed {
        Parsed::Done { query, next } => r matches Ok(read) && read.0@ == query && read.1 == next,
        Parsed::Failed { at } => r matches Err(stopped) && stopped == at,
    }
}

/// Whether the piece at `i` is of the same kind as `kind`, which holds no
/// word.
fn piece_is(lexemes: &Vec<Lexeme>, i: usize, kind: &QueryToken) -> (yes: bool)
    requires
        !(kind is Word),
    ensures
        yes == (i < lexemes.len() && kinds(lexeme_views(lexemes@))[i as int] == kind@),
{
    if i >= lexemes.len() {
        return false;
    }
    match (&lexemes[i].token, kind) {
        (QueryToken::And, QueryToken::And) => true,
        (QueryToken::Or, QueryToken::Or) => true,
        (QueryToken::Open, QueryToken::Open) => true,
        (QueryToken::Close, QueryToken::Close) => true,
        _ => false,
    }
}

/// Reads a word or a bracketed query at piece `i`.
fn read_factor(lexemes: &Vec<Lexeme>, i: usize) -> (r: Result<(SearchQuery, usize), usize>)
    requires
        i <= lexemes.len(),
    ensures
        agrees(r, parse_factor(kinds(lexeme_views(lexemes@)), i as int)),
    decreases lexemes.len() - i, 0int,
{
    if i >= lexemes.len() {
        return Err(i);
    }
    match &lexemes[i].token {
        QueryToken::Word(w) => Ok((SearchQuery::Word(w.clone()), i + 1)),
        QueryToken::Open => {
            match read_expr(lexemes, i + 1) {
                Ok((query, next)) => {
                    if piece_is(lexemes, next, &QueryToken::Close) {
                        Ok((query, next + 1))
                    } else {
                        Err(next)
                    }
                },
                Err(at) => Err(at),
            }
        },
        _ => Err(i),
    }
}

/// Reads factors joined by `AND` at piece `i`, as many as there are.
fn read_term(lexemes: &Vec<Lexeme>, i: usize) -> (r: Result<(SearchQuery, usize), usize>)
    requires
        i <= lexemes.len(),
    ensures
        agrees(r, parse_term(kinds(lexeme_views(lexemes@)), i as int)),
    decreases lexemes.len() - i, 2int,
{
    let ghost ts = kinds(lexeme_views(lexemes@));
    proof {
        lemma_parse_bounds(ts, i as int, Reader::Factor, QueryView::Word(Seq::empty()));
    }
    let (mut acc, mut pos) = match read_factor(lexemes, i) {
        Ok(read) => read,
        Err(at) => {
            return Err(at);
        },
    };
    while piece_is(lexemes, pos, &QueryToken::And)
        invariant
            ts == kinds(lexeme_views(lexemes@)),
            i < pos <= lexemes.len(),
            term_rest(ts, pos as int, acc@) == parse_term(ts, i as int),
        decreases lexemes.len() - pos,
    {
        proof {
            lemma_parse_bounds(ts, pos + 1, Reader::Factor, acc@);
        }
        match read_factor(lexemes, pos + 1) {
            Ok((factor, next)) => {
                acc = SearchQuery::And(Box::new(acc), Box::new(factor));
                pos = next;
            },
            Err(at) => {
                return Err(at);
            },
        }
    }
    Ok((acc, pos))
}

/// Reads terms joined by `OR` at piece `i`, as many as there are.
fn read_expr(lexemes: &Vec<Lexeme>, i: usize) -> (r: Result<(SearchQuery, usize), usize>)
    requires
        i <= lexemes.len(),
    ensures
        agrees(r, parse_expr(kinds(lexeme_views(lexemes@)), i as int)),
    decreases lexemes.len() - i, 4int,
{
    let ghost ts = kinds(lexeme_views(lexemes@));
    proof {
        lemma_parse_bounds(ts, i as int, Reader::Term, QueryView::Word(Seq::empty()));
    }
    let (mut acc, mut pos) = match read_term(lexemes, i) {
        Ok(read) => read,
        Err(at) => {
            return Err(at);
        },
    };
    while piece_is(lexemes, pos, &QueryToken::Or)
        invariant
            ts == kinds(lexeme_views(lexemes@)),
            i < pos <= lexemes.len(),
            expr_rest(ts, pos as int, acc@) == parse_expr(ts, i as int),
        decreases lexemes.len() - pos,
    {
        proof {
            lemma_parse_bounds(ts, pos + 1, Reader::Term, acc@);
        }
        match read_term(lexemes, pos + 1) {
            Ok((term, next)) => {
                acc = SearchQuery::Or(Box::new(acc), Box::new(term));
                pos = next;
            },
            Err(at) => {
                return Err(at);
            },
        }
    }
    Ok((acc, pos))
}

/// Reads the pieces as one query that uses all of them.
pub fn parse_lexemes(lexemes: &Vec<Lexeme>) -> (r: Result<SearchQuery, usize>)
    ensures
        match parse_all(kinds(lexeme_views(lexemes@))) {
            Parsed::Done { query, next } => r matches Ok(read) && read@ == query,
            Parsed::Failed { at } => r matches Err(stopped) && stopped == at,
        },
        match r {
            Ok(read) => spells_expr(kinds(lexeme_views(lexemes@)), read@),
            Err(_) => forall|query: QueryView|
                !spells_expr(kinds(lexeme_views(lexemes@)), query),
        },
{
    proof {
        let ts = kinds(lexeme_views(lexemes@));
        if parse_all(ts) is Done {
            lemma_reading_is_sound(ts);
        } else {
            assert forall|query: QueryView| !spells_expr(ts, query) by {
                lemma_failure_means_no_query(ts, query);
            }
        }
    }
    match read_expr(lexemes, 0) {
        Ok((query, next)) => {
            if next == lexemes.len() {
                Ok(query)
            } else {
                Err(next)
            }
        },
        Err(at) => Err(at),
    }
}

/// Reads a query string. Where it is no query, the place of the piece that
/// cannot stand where it stands is reported, counted in characters; that is
/// the length of the string where the string ends too early.
pub fn parse_query(text: &str) -> (r: Result<SearchQuery, SearchError>)
    ensures
        match parse_text(text@) {
            Ok(query) => r matches Ok(read) && read@ == query,
            Err(place) => r matches Err(e) && e == (SearchError::QuerySyntax {
                position: place as usize,
            }),
        },
{
    let lexemes = lex_query(text);
    match parse_lexemes(&lexemes) {
        Ok(query) => Ok(query),
        Err(at) => {
            let position = if at < lexemes.len() {
                lexemes[at].position
            } else {
                text.unicode_len()
            };
            Err(SearchError::QuerySyntax { position })
        },
    }
}

} // verus!
