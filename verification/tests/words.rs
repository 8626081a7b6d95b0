use thread_search::lemmatizer::{normalize, DictionaryLemmatizer, FnLemmatizer, Lemmatizer};
use thread_search::query::{lex_query, parse_lexemes, parse_query, Lexeme, QueryToken, SearchQuery};
use thread_search::text::{char_string, chars_of, mark_alphanumeric, split_runs, tokenize, Token};
use thread_search::SearchError;

fn word(w: &str) -> Token {
    Token::Word(w.to_string())
}

fn sep(c: char) -> Token {
    Token::Separator(c)
}

#[test]
fn chars_of_lists_every_character() {
    assert_eq!(chars_of("a, b"), vec!['a', ',', ' ', 'b']);
    assert_eq!(chars_of("жук"), vec!['ж', 'у', 'к']);
    assert_eq!(chars_of(""), Vec::<char>::new());
}

#[test]
fn letters_and_digits_are_alphanumeric() {
    let marks = mark_alphanumeric(&vec!['a', 'Z', '7', 'ж', ' ', ',', '-', '_', '!']);
    assert_eq!(marks, vec![true, true, true, true, false, false, false, false, false]);
}

#[test]
fn runs_of_marked_characters_are_words() {
    let chars = vec!['a', 'b', ',', ' ', 'c'];
    let marks = vec![true, true, false, false, true];
    assert_eq!(split_runs(&chars, &marks), vec![word("ab"), sep(','), sep(' '), word("c")]);
}

#[test]
fn the_marking_decides_what_a_word_is() {
    // The same characters under another marking.
    let chars = vec!['a', 'b', ',', ' ', 'c'];
    let marks = vec![false, true, true, true, false];
    assert_eq!(split_runs(&chars, &marks), vec![sep('a'), word("b, "), sep('c')]);
}

#[test]
fn a_marking_of_another_length_gives_nothing() {
    assert_eq!(split_runs(&vec!['a', 'b'], &vec![true]), Vec::<Token>::new());
    assert_eq!(split_runs(&vec![], &vec![true]), Vec::<Token>::new());
    assert_eq!(split_runs(&vec![], &vec![]), Vec::<Token>::new());
}

#[test]
fn text_is_cut_at_every_character_that_is_no_letter_or_digit() {
    assert_eq!(
        tokenize("Hello, world!"),
        vec![word("Hello"), sep(','), sep(' '), word("world"), sep('!')]
    );
}

#[test]
fn leading_and_trailing_separators_are_pieces_of_their_own() {
    assert_eq!(tokenize("  a "), vec![sep(' '), sep(' '), word("a"), sep(' ')]);
    assert_eq!(tokenize("..."), vec![sep('.'), sep('.'), sep('.')]);
    assert_eq!(tokenize(""), Vec::<Token>::new());
    assert_eq!(tokenize("word"), vec![word("word")]);
}

#[test]
fn words_of_other_scripts_are_words() {
    assert_eq!(
        tokenize("привет, мир2"),
        vec![word("привет"), sep(','), sep(' '), word("мир2")]
    );
}

#[test]
fn an_underscore_separates() {
    assert_eq!(tokenize("a_b"), vec![word("a"), sep('_'), word("b")]);
}

#[test]
fn a_character_becomes_a_string() {
    assert_eq!(char_string('x'), "x");
    assert_eq!(char_string('ж'), "ж");
}

#[test]
fn normalizing_lowers_the_case_first() {
    let identity = DictionaryLemmatizer::new();
    assert_eq!(normalize(&identity, "HeLLo"), "hello");
    assert_eq!(normalize(&identity, "ПРИВЕТ"), "привет");
    assert_eq!(normalize(&identity, "abc1"), "abc1");
}

#[test]
fn the_dictionary_gives_the_recorded_form() {
    let mut dictionary = DictionaryLemmatizer::new();
    dictionary.insert("cats".to_string(), "cat".to_string());
    dictionary.insert("mice".to_string(), "mouse".to_string());
    assert_eq!(dictionary.lemmatize("cats"), "cat");
    assert_eq!(dictionary.lemmatize("mice"), "mouse");
    assert_eq!(dictionary.lemmatize("dogs"), "dogs");
    assert_eq!(dictionary.lemmatize(""), "");
    // The table is looked up with the lower-cased word.
    assert_eq!(normalize(&dictionary, "CATS"), "cat");
}

#[test]
fn a_later_entry_replaces_an_earlier_one() {
    let mut dictionary = DictionaryLemmatizer::new();
    dictionary.insert("went".to_string(), "wend".to_string());
    dictionary.insert("went".to_string(), "go".to_string());
    assert_eq!(dictionary.lemmatize("went"), "go");
}

fn lexeme(token: QueryToken, position: usize) -> Lexeme {
    Lexeme { token, position }
}

fn query_word(w: &str) -> QueryToken {
    QueryToken::Word(w.to_string())
}

#[test]
fn a_query_string_is_cut_into_words_operators_and_brackets() {
    assert_eq!(
        lex_query("hello AND (again OR x)"),
        vec![
            lexeme(query_word("hello"), 0),
            lexeme(QueryToken::And, 6),
            lexeme(QueryToken::Open, 10),
            lexeme(query_word("again"), 11),
            lexeme(QueryToken::Or, 17),
            lexeme(query_word("x"), 20),
            lexeme(QueryToken::Close, 21),
        ]
    );
}

#[test]
fn places_are_counted_in_characters() {
    assert_eq!(
        lex_query("жук OR ёж"),
        vec![
            lexeme(query_word("жук"), 0),
            lexeme(QueryToken::Or, 4),
            lexeme(query_word("ёж"), 7),
        ]
    );
}

#[test]
fn operators_are_written_in_capitals() {
    assert_eq!(
        lex_query("and Or AND OR ANDY"),
        vec![
            lexeme(query_word("and"), 0),
            lexeme(query_word("Or"), 4),
            lexeme(QueryToken::And, 7),
            lexeme(QueryToken::Or, 11),
            lexeme(query_word("ANDY"), 14),
        ]
    );
}

#[test]
fn other_separators_mean_nothing() {
    assert_eq!(lex_query(" ,;! "), Vec::<Lexeme>::new());
    assert_eq!(lex_query(""), Vec::<Lexeme>::new());
    assert_eq!(lex_query("a-b"), vec![lexeme(query_word("a"), 0), lexeme(query_word("b"), 2)]);
}

fn leaf(w: &str) -> SearchQuery {
    SearchQuery::Word(w.to_string())
}

fn and(l: SearchQuery, r: SearchQuery) -> SearchQuery {
    SearchQuery::And(Box::new(l), Box::new(r))
}

fn or(l: SearchQuery, r: SearchQuery) -> SearchQuery {
    SearchQuery::Or(Box::new(l), Box::new(r))
}

fn syntax(position: usize) -> Result<SearchQuery, SearchError> {
    Err(SearchError::QuerySyntax { position })
}

#[test]
fn a_single_word_is_a_query() {
    assert_eq!(parse_query("hello"), Ok(leaf("hello")));
    assert_eq!(parse_query("  hello  "), Ok(leaf("hello")));
}

#[test]
fn the_word_of_a_query_keeps_its_case() {
    assert_eq!(parse_query("Hello"), Ok(leaf("Hello")));
}

#[test]
fn and_binds_more_tightly_than_or() {
    assert_eq!(parse_query("a AND b OR c"), Ok(or(and(leaf("a"), leaf("b")), leaf("c"))));
    assert_eq!(parse_query("a OR b AND c"), Ok(or(leaf("a"), and(leaf("b"), leaf("c")))));
}

#[test]
fn operators_group_to_the_left() {
    assert_eq!(parse_query("a AND b AND c"), Ok(and(and(leaf("a"), leaf("b")), leaf("c"))));
    assert_eq!(parse_query("a OR b OR c"), Ok(or(or(leaf("a"), leaf("b")), leaf("c"))));
}

#[test]
fn brackets_group() {
    assert_eq!(parse_query("(a OR b) AND c"), Ok(and(or(leaf("a"), leaf("b")), leaf("c"))));
    assert_eq!(parse_query("a AND (b OR c)"), Ok(and(leaf("a"), or(leaf("b"), leaf("c")))));
    assert_eq!(parse_query("((a))"), Ok(leaf("a")));
    assert_eq!(parse_query("a OR (b OR c)"), Ok(or(leaf("a"), or(leaf("b"), leaf("c")))));
}

#[test]
fn an_empty_string_is_no_query() {
    assert_eq!(parse_query(""), syntax(0));
    assert_eq!(parse_query("   "), syntax(3));
}

#[test]
fn two_words_need_an_operator() {
    assert_eq!(parse_query("a b"), syntax(2));
    assert_eq!(parse_query("hello, world"), syntax(7));
}

#[test]
fn an_operator_needs_both_sides() {
    assert_eq!(parse_query("a AND"), syntax(5));
    assert_eq!(parse_query("a OR "), syntax(5));
    assert_eq!(parse_query("AND a"), syntax(0));
    assert_eq!(parse_query("a AND OR b"), syntax(6));
}

#[test]
fn brackets_must_match() {
    assert_eq!(parse_query("(a"), syntax(2));
    assert_eq!(parse_query("a)"), syntax(1));
    assert_eq!(parse_query("()"), syntax(1));
    assert_eq!(parse_query("(a OR b AND c"), syntax(13));
    assert_eq!(parse_query("(a) b"), syntax(4));
}

#[test]
fn the_place_of_a_fault_is_counted_in_characters() {
    assert_eq!(parse_query("жук ёж"), syntax(4));
}

#[test]
fn pieces_are_read_as_one_query_or_the_fault_is_numbered() {
    let pieces = vec![
        lexeme(query_word("a"), 0),
        lexeme(QueryToken::And, 2),
        lexeme(query_word("b"), 6),
    ];
    assert_eq!(parse_lexemes(&pieces), Ok(and(leaf("a"), leaf("b"))));
    let broken = vec![lexeme(query_word("a"), 0), lexeme(QueryToken::Close, 2)];
    assert_eq!(parse_lexemes(&broken), Err(1));
    assert_eq!(parse_lexemes(&vec![]), Err(0));
    let unclosed = vec![lexeme(QueryToken::Open, 0), lexeme(query_word("a"), 1)];
    assert_eq!(parse_lexemes(&unclosed), Err(2));
}

fn drop_final_s(word: &str) -> String {
    word.strip_suffix('s').unwrap_or(word).to_string()
}

#[test]
fn a_function_can_be_the_lemmatizer() {
    let stemmer = FnLemmatizer::new(drop_final_s);
    assert_eq!(stemmer.lemmatize("cats"), "cat");
    assert_eq!(normalize(&stemmer, "Words"), "word");
    let searcher = thread_search::Searcher::new(
        stemmer,
        vec![thread_search::Message {
            id: 0,
            reply_to_message_id: None,
            date_unixtime: 7,
            text_entities: vec![thread_search::TextEntity::Lemmatizable("Many words".to_string())],
        }],
    )
    .unwrap();
    assert_eq!(searcher.find_threads_by_word("word".to_string()), vec![0]);
    assert_eq!(searcher.find_threads_by_word("WORDS".to_string()), vec![0]);
    assert_eq!(searcher.get_query_words("words OR many".to_string()), vec!["word", "many"]);
}

#[test]
fn a_closure_around_shared_state_can_be_the_lemmatizer() {
    let table = std::sync::Arc::new(std::sync::Mutex::new(vec![("mice", "mouse")]));
    let shared = table.clone();
    let lookup = FnLemmatizer::new(move |word: &str| {
        let known = shared.lock().unwrap();
        match known.iter().find(|entry| entry.0 == word) {
            Some(entry) => entry.1.to_string(),
            None => word.to_string(),
        }
    });
    assert_eq!(lookup.lemmatize("mice"), "mouse");
    assert_eq!(lookup.lemmatize("mouse"), "mouse");
    assert_eq!(table.lock().unwrap().len(), 1);
}
