//! What the query grammar means: which query a list of pieces spells, and
//! that reading the pieces finds exactly that query.
//!
//! ```text
//! expression := term | expression OR term
//! term       := factor | term AND factor
//! factor     := word | ( expression )
//! ```

use crate::query::{
    expr_rest, lemma_parse_bounds, parse_all, parse_expr, parse_factor, parse_term, term_rest,
    Parsed, QueryTokenView, QueryView, Reader,
};
use vstd::prelude::*;

verus! {

/// The pieces spell `query` as a factor: they are one word, the query's
/// own, or an expression for the query in brackets.
pub open spec fn spells_factor(ts: Seq<QueryTokenView>, query: QueryView) -> bool
    decreases ts.len(), 0int,
{
    ||| ts.len() == 1 && query is Word && ts[0] == QueryTokenView::Word(query->Word_0)
    ||| ts.len() >= 2 && ts[0] == QueryTokenView::Open && ts[ts.len() - 1]
        == QueryTokenView::Close && spells_expr(ts.subrange(1, ts.len() - 1), query)
}

/// Piece `k` has pieces on both sides.
pub open spec fn inner(ts: Seq<QueryTokenView>, k: int) -> bool {
    0 < k < ts.len() - 1
}

/// The pieces spell `query` as a term, cut at the `AND` at `k`: a term for
/// the left side, then `AND`, then a factor for the right side.
pub open spec fn spells_conjunction_at(ts: Seq<QueryTokenView>, query: QueryView, k: int) -> bool
    decreases ts.len(), 1int,
{
    &&& query is And
    &&& inner(ts, k)
    &&& ts[k] == QueryTokenView::And
    &&& spells_term(ts.subrange(0, k), *query->And_0)
    &&& spells_factor(ts.subrange(k + 1, ts.len() as int), *query->And_1)
}

/// The pieces spell `query` as a term: a factor, or factors joined by
/// `AND` that group to the left.
pub open spec fn spells_term(ts: Seq<QueryTokenView>, query: QueryView) -> bool
    decreases ts.len(), 2int,
{
    ||| spells_factor(ts, query)
    ||| exists|k: int| #[trigger] inner(ts, k) && spells_conjunction_at(ts, query, k)
}

/// The pieces spell `query` as an expression, cut at the `OR` at `k`: an
/// expression for the left side, then `OR`, then a term for the right side.
pub open spec fn spells_disjunction_at(ts: Seq<QueryTokenView>, query: QueryView, k: int) -> bool
    decreases ts.len(), 3int,
{
    &&& query is Or
    &&& inner(ts, k)
    &&& ts[k] == QueryTokenView::Or
    &&& spells_expr(ts.subrange(0, k), *query->Or_0)
    &&& spells_term(ts.subrange(k + 1, ts.len() as int), *query->Or_1)
}

/// The pieces spell `query` as an expression: a term, or terms joined by
/// `OR` that group to the left.
pub open spec fn spells_expr(ts: Seq<QueryTokenView>, query: QueryView) -> bool
    decreases ts.len(), 4int,
{
    ||| spells_term(ts, query)
    ||| exists|k: int| #[trigger] inner(ts, k) && spells_disjunction_at(ts, query, k)
}

/// A factor that was read is spelled by the pieces that were read.
proof fn lemma_read_factor_spells(ts: Seq<QueryTokenView>, i: int)
    requires
        0 <= i <= ts.len(),
        parse_factor(ts, i) is Done,
    ensures
        i < parse_factor(ts, i)->next <= ts.len(),
        spells_factor(ts.subrange(i, parse_factor(ts, i)->next), parse_factor(ts, i)->query),
    decreases ts.len() - i, 0int,
{
    let word = QueryView::Word(Seq::empty());
    lemma_parse_bounds(ts, i, Reader::Factor, word);
    let next = parse_factor(ts, i)->next;
    let read = ts.subrange(i, next);
    if ts[i] == QueryTokenView::Open {
        lemma_read_expr_spells(ts, i + 1);
        assert(read.subrange(1, read.len() - 1) =~= ts.subrange(i + 1, next - 1));
    }
}

/// A conjunction that was read on is spelled by the pieces that were read.
proof fn lemma_term_rest_spells(ts: Seq<QueryTokenView>, from: int, i: int, acc: QueryView)
    requires
        0 <= from < i <= ts.len(),
        spells_term(ts.subrange(from, i), acc),
        term_rest(ts, i, acc) is Done,
    ensures
        i <= term_rest(ts, i, acc)->next <= ts.len(),
        spells_term(ts.subrange(from, term_rest(ts, i, acc)->next), term_rest(ts, i, acc)->query),
    decreases ts.len() - i, 1int,
{
    if i < ts.len() && ts[i] == QueryTokenView::And {
        lemma_read_factor_spells(ts, i + 1);
        let factor = parse_factor(ts, i + 1)->query;
        let next = parse_factor(ts, i + 1)->next;
        let joined = QueryView::And(Box::new(acc), Box::new(factor));
        let read = ts.subrange(from, next);
        assert(read.subrange(0, i - from) =~= ts.subrange(from, i));
        assert(read.subrange(i - from + 1, read.len() as int) =~= ts.subrange(i + 1, next));
        assert(inner(read, i - from) && spells_conjunction_at(read, joined, i - from));
        lemma_term_rest_spells(ts, from, next, joined);
    }
}

/// A term that was read is spelled by the pieces that were read.
proof fn lemma_read_term_spells(ts: Seq<QueryTokenView>, i: int)
    requires
        0 <= i <= ts.len(),
        parse_term(ts, i) is Done,
    ensures
        i < parse_term(ts, i)->next <= ts.len(),
        spells_term(ts.subrange(i, parse_term(ts, i)->next), parse_term(ts, i)->query),
    decreases ts.len() - i, 2int,
{
    let word = QueryView::Word(Seq::empty());
    lemma_parse_bounds(ts, i, Reader::Term, word);
    lemma_read_factor_spells(ts, i);
    lemma_term_rest_spells(ts, i, parse_factor(ts, i)->next, parse_factor(ts, i)->query);
}

/// A disjunction that was read on is spelled by the pieces that were read.
proof fn lemma_expr_rest_spells(ts: Seq<QueryTokenView>, from: int, i: int, acc: QueryView)
    requires
        0 <= from < i <= ts.len(),
        spells_expr(ts.subrange(from, i), acc),
        expr_rest(ts, i, acc) is Done,
    ensures
        i <= expr_rest(ts, i, acc)->next <= ts.len(),
        spells_expr(ts.subrange(from, expr_rest(ts, i, acc)->next), expr_rest(ts, i, acc)->query),
    decreases ts.len() - i, 3int,
{
    if i < ts.len() && ts[i] == QueryTokenView::Or {
        lemma_read_term_spells(ts, i + 1);
        let term = parse_term(ts, i + 1)->query;
        let next = parse_term(ts, i + 1)->next;
        let joined = QueryView::Or(Box::new(acc), Box::new(term));
        let read = ts.subrange(from, next);
        assert(read.subrange(0, i - from) =~= ts.subrange(from, i));
        assert(read.subrange(i - from + 1, read.len() as int) =~= ts.subrange(i + 1, next));
        assert(inner(read, i - from) && spells_disjunction_at(read, joined, i - from));
        lemma_expr_rest_spells(ts, from, next, joined);
    }
}

/// An expression that was read is spelled by the pieces that were read.
proof fn lemma_read_expr_spells(ts: Seq<QueryTokenView>, i: int)
    requires
        0 <= i <= ts.len(),
        parse_expr(ts, i) is Done,
    ensures
        i < parse_expr(ts, i)->next <= ts.len(),
        spells_expr(ts.subrange(i, parse_expr(ts, i)->next), parse_expr(ts, i)->query),
    decreases ts.len() - i, 4int,
{
    lemma_read_term_spells(ts, i);
    lemma_expr_rest_spells(ts, i, parse_term(ts, i)->next, parse_term(ts, i)->query);
}

/// A factor that the pieces from `from` up to `to` spell is what reading
/// finds at `from`, and reading stops at `to`.
proof fn lemma_spelled_factor_is_read(
    all: Seq<QueryTokenView>,
    from: int,
    to: int,
    query: QueryView,
)
    requires
        0 <= from <= to <= all.len(),
        spells_factor(all.subrange(from, to), query),
    ensures
        from < to,
        parse_factor(all, from) == (Parsed::Done { query, next: to }),
    decreases to - from, 0int,
{
    let ts = all.subrange(from, to);
    let one_word = ts.len() == 1 && query is Word && ts[0] == QueryTokenView::Word(
        query->Word_0,
    );
    if !one_word {
        assert(ts.subrange(1, ts.len() - 1) =~= all.subrange(from + 1, to - 1));
        lemma_spelled_expr_is_read(all, from + 1, to - 1, query);
    }
}

/// A term that the pieces from `from` up to `to` spell is what reading has
/// found when it comes to `to`.
proof fn lemma_spelled_term_is_read(
    all: Seq<QueryTokenView>,
    from: int,
    to: int,
    query: QueryView,
)
    requires
        0 <= from <= to <= all.len(),
        spells_term(all.subrange(from, to), query),
    ensures
        from < to,
        parse_term(all, from) == term_rest(all, to, query),
    decreases to - from, 2int,
{
    let ts = all.subrange(from, to);
    if spells_factor(ts, query) {
        lemma_spelled_factor_is_read(all, from, to, query);
    } else {
        let k = choose|k: int| #[trigger] inner(ts, k) && spells_conjunction_at(ts, query, k);
        let left = *query->And_0;
        let right = *query->And_1;
        assert(ts.subrange(0, k) =~= all.subrange(from, from + k));
        assert(ts.subrange(k + 1, ts.len() as int) =~= all.subrange(from + k + 1, to));
        lemma_spelled_term_is_read(all, from, from + k, left);
        lemma_spelled_factor_is_read(all, from + k + 1, to, right);
    }
}

/// An expression that the pieces from `from` up to `to` spell is what
/// reading has found when it comes to `to`, where no `AND` stands at `to`.
proof fn lemma_spelled_expr_is_read(
    all: Seq<QueryTokenView>,
    from: int,
    to: int,
    query: QueryView,
)
    requires
        0 <= from <= to <= all.len(),
        spells_expr(all.subrange(from, to), query),
        to == all.len() || all[to] != QueryTokenView::And,
    ensures
        from < to,
        parse_expr(all, from) == expr_rest(all, to, query),
    decreases to - from, 4int,
{
    let ts = all.subrange(from, to);
    if spells_term(ts, query) {
        lemma_spelled_term_is_read(all, from, to, query);
    } else {
        let k = choose|k: int| #[trigger] inner(ts, k) && spells_disjunction_at(ts, query, k);
        let left = *query->Or_0;
        let right = *query->Or_1;
        assert(ts.subrange(0, k) =~= all.subrange(from, from + k));
        assert(ts.subrange(k + 1, ts.len() as int) =~= all.subrange(from + k + 1, to));
        lemma_spelled_expr_is_read(all, from, from + k, left);
        lemma_spelled_term_is_read(all, from + k + 1, to, right);
    }
}

/// Reading is sound: the query that is read is one that the pieces spell.
pub proof fn lemma_reading_is_sound(ts: Seq<QueryTokenView>)
    requires
        parse_all(ts) is Done,
    ensures
        spells_expr(ts, parse_all(ts)->query),
{
    lemma_read_expr_spells(ts, 0);
    assert(ts.subrange(0, ts.len() as int) =~= ts);
}

/// Reading is complete: a query that the pieces spell is read, and all the
/// pieces are used.
pub proof fn lemma_reading_is_complete(ts: Seq<QueryTokenView>, query: QueryView)
    requires
        spells_expr(ts, query),
    ensures
        parse_all(ts) == (Parsed::Done { query, next: ts.len() as int }),
{
    assert(ts.subrange(0, ts.len() as int) =~= ts);
    lemma_spelled_expr_is_read(ts, 0, ts.len() as int, query);
}

/// The grammar is unambiguous: pieces spell one query at most.
pub proof fn lemma_spelling_is_unambiguous(
    ts: Seq<QueryTokenView>,
    first: QueryView,
    second: QueryView,
)
    requires
        spells_expr(ts, first),
        spells_expr(ts, second),
    ensures
        first == second,
{
    lemma_reading_is_complete(ts, first);
    lemma_reading_is_complete(ts, second);
}

/// Where reading fails, the pieces spell no query.
pub proof fn lemma_failure_means_no_query(ts: Seq<QueryTokenView>, query: QueryView)
    requires
        parse_all(ts) is Failed,
    ensures
        !spells_expr(ts, query),
{
    if spells_expr(ts, query) {
        lemma_reading_is_complete(ts, query);
    }
}

} // verus!
