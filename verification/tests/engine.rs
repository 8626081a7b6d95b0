use thread_search::highlight::{contains_word, mark_word};
use thread_search::index::{build_index, InvertedIndex};
use thread_search::{
    DictionaryLemmatizer, Message, MessageResult, SearchError, SearchQuery, Searcher, Text,
    TextEntity, ThreadSearchResult,
};

fn prose(id: usize, text: &str, reply_to: Option<usize>, date: u32) -> Message {
    Message {
        id,
        reply_to_message_id: reply_to,
        date_unixtime: date,
        text_entities: vec![TextEntity::Lemmatizable(text.to_string())],
    }
}

fn engine(messages: Vec<Message>) -> Searcher<DictionaryLemmatizer> {
    Searcher::new(DictionaryLemmatizer::new(), messages).unwrap()
}

fn plain(text: &str) -> Text {
    Text::Plain(text.to_string())
}

fn marked(text: &str) -> Text {
    Text::Highlight(text.to_string())
}

fn words(list: &[&str]) -> Vec<String> {
    list.iter().map(|w| w.to_string()).collect()
}

fn hit(thread_id: u32, title: &str, date: u32) -> ThreadSearchResult {
    ThreadSearchResult { thread_id, score: 0, title_text: title.to_string(), date_unixtime: date }
}

fn hello_archive() -> Vec<Message> {
    vec![prose(0, "hello world", None, 100), prose(1, "hello again", Some(0), 200)]
}

#[test]
fn a_word_of_the_thread_finds_the_thread_once() {
    let searcher = engine(hello_archive());
    assert_eq!(searcher.find_threads("hello".to_string()), Ok(vec![hit(0, "hello world", 100)]));
}

#[test]
fn a_conjunction_across_messages_of_one_thread_finds_it() {
    let searcher = engine(hello_archive());
    assert_eq!(
        searcher.find_threads("hello AND again".to_string()),
        Ok(vec![hit(0, "hello world", 100)])
    );
}

#[test]
fn a_word_that_no_message_holds_finds_nothing() {
    let searcher = engine(hello_archive());
    assert_eq!(searcher.find_threads("missing".to_string()), Ok(vec![]));
    assert_eq!(searcher.find_threads("hello AND missing".to_string()), Ok(vec![]));
    assert_eq!(
        searcher.find_threads("hello OR missing".to_string()),
        Ok(vec![hit(0, "hello world", 100)])
    );
}

#[test]
fn the_two_messages_form_one_thread() {
    let searcher = engine(hello_archive());
    assert_eq!(searcher.get_thread_messages(0), Ok((0, 1)));
    assert_eq!(
        searcher.get_thread_messages(1),
        Err(SearchError::ThreadOutOfRange { thread_id: 1 })
    );
}

#[test]
fn search_ignores_case() {
    let searcher = engine(vec![prose(0, "Hello WORLD", None, 1)]);
    assert_eq!(searcher.find_threads("HELLO".to_string()), Ok(vec![hit(0, "Hello WORLD", 1)]));
    assert_eq!(searcher.find_threads("world".to_string()), Ok(vec![hit(0, "Hello WORLD", 1)]));
}

#[test]
fn a_short_word_is_highlighted_but_never_indexed() {
    let searcher = engine(vec![prose(0, "the cat sat", None, 1)]);
    // Three characters: not indexed, so the search finds nothing.
    assert_eq!(searcher.find_threads("cat".to_string()), Ok(vec![]));
    assert_eq!(searcher.find_threads_by_word("cat".to_string()), Vec::<usize>::new());
    // Highlighting knows no shortest word.
    assert_eq!(
        searcher.highlight_substrings("the cat sat".to_string(), &words(&["cat"])),
        vec![plain("the"), plain(" "), marked("cat"), plain(" "), plain("sat")]
    );
}

#[test]
fn a_word_of_four_characters_is_highlighted_and_indexed() {
    let searcher = engine(vec![prose(0, "the cats sat", None, 1)]);
    assert_eq!(searcher.find_threads("cats".to_string()), Ok(vec![hit(0, "the cats sat", 1)]));
    assert_eq!(searcher.find_threads_by_word("cats".to_string()), vec![0]);
    assert_eq!(
        searcher.highlight_substrings("the cats sat".to_string(), &words(&["cats"])),
        vec![plain("the"), plain(" "), marked("cats"), plain(" "), plain("sat")]
    );
}

#[test]
fn the_length_of_a_word_is_counted_in_characters() {
    // Three characters that take six bytes.
    let searcher = engine(vec![prose(0, "кот спит", None, 1)]);
    assert_eq!(searcher.find_threads_by_word("кот".to_string()), Vec::<usize>::new());
    assert_eq!(searcher.find_threads_by_word("спит".to_string()), vec![0]);
}

#[test]
fn a_short_query_word_finds_what_is_indexed_under_it() {
    // The index holds the canonical form of a long word, which may be short.
    let mut dictionary = DictionaryLemmatizer::new();
    dictionary.insert("cats".to_string(), "cat".to_string());
    let searcher = Searcher::new(dictionary, vec![prose(0, "two cats", None, 1)]).unwrap();
    assert_eq!(searcher.find_threads_by_word("cat".to_string()), vec![0]);
    assert_eq!(searcher.find_threads_by_word("CATS".to_string()), vec![0]);
}

#[test]
fn results_come_most_recent_first() {
    let searcher = engine(vec![
        prose(0, "word first", None, 100),
        prose(1, "word second", None, 300),
        prose(2, "word third", None, 200),
        prose(3, "other text", None, 400),
    ]);
    let hits = searcher.find_threads("word".to_string()).unwrap();
    assert_eq!(
        hits,
        vec![hit(1, "word second", 300), hit(2, "word third", 200), hit(0, "word first", 100)]
    );
    assert!(hits.windows(2).all(|pair| pair[0].date_unixtime >= pair[1].date_unixtime));
}

#[test]
fn equally_recent_threads_keep_the_order_of_their_identifiers() {
    let searcher = engine(vec![
        prose(0, "same word", None, 50),
        prose(1, "same word", None, 70),
        prose(2, "same word", None, 50),
        prose(3, "same word", None, 70),
    ]);
    let hits = searcher.find_threads("same".to_string()).unwrap();
    let ids: Vec<u32> = hits.iter().map(|h| h.thread_id).collect();
    assert_eq!(ids, vec![1, 3, 0, 2]);
}

#[test]
fn late_timestamps_are_recent() {
    let searcher = engine(vec![
        prose(0, "same word", None, 1),
        prose(1, "same word", None, u32::MAX),
        prose(2, "same word", None, 0x8000_0000),
    ]);
    let hits = searcher.find_threads("same".to_string()).unwrap();
    let ids: Vec<u32> = hits.iter().map(|h| h.thread_id).collect();
    assert_eq!(ids, vec![1, 2, 0]);
}

#[test]
fn the_title_and_the_time_are_those_of_the_first_message() {
    let searcher = engine(vec![
        prose(0, "opening", None, 10),
        prose(1, "unrelated", None, 20),
        prose(2, "needle here", Some(0), 30),
    ]);
    assert_eq!(searcher.find_threads("needle".to_string()), Ok(vec![hit(0, "opening", 10)]));
    assert_eq!(searcher.get_thread_messages(0), Ok((0, 2)));
    assert_eq!(searcher.get_thread_messages(1), Ok((1, 1)));
}

#[test]
fn a_word_is_registered_once_for_a_thread() {
    let searcher = engine(vec![
        prose(0, "echo echo echo", None, 1),
        prose(1, "echo", Some(0), 2),
        prose(2, "echo", None, 3),
    ]);
    assert_eq!(searcher.find_threads_by_word("echo".to_string()), vec![0, 1]);
}

#[test]
fn words_with_one_canonical_form_are_one_word() {
    let mut dictionary = DictionaryLemmatizer::new();
    dictionary.insert("running".to_string(), "run".to_string());
    dictionary.insert("runs".to_string(), "run".to_string());
    let searcher = Searcher::new(
        dictionary,
        vec![prose(0, "she runs", None, 1), prose(1, "running late", None, 2)],
    )
    .unwrap();
    assert_eq!(searcher.find_threads_by_word("runs".to_string()), vec![0, 1]);
    assert_eq!(searcher.find_threads_by_word("Running".to_string()), vec![0, 1]);
}

#[test]
fn text_that_is_no_prose_is_not_indexed() {
    let searcher = engine(vec![Message {
        id: 0,
        reply_to_message_id: None,
        date_unixtime: 1,
        text_entities: vec![
            TextEntity::Illemmatizable("hidden".to_string()),
            TextEntity::Lemmatizable("shown".to_string()),
        ],
    }]);
    assert_eq!(searcher.find_threads_by_word("hidden".to_string()), Vec::<usize>::new());
    assert_eq!(searcher.find_threads_by_word("shown".to_string()), vec![0]);
}

fn leaf(w: &str) -> SearchQuery {
    SearchQuery::Word(w.to_string())
}

#[test]
fn queries_combine_posting_lists() {
    let searcher = engine(vec![
        prose(0, "alpha beta", None, 1),
        prose(1, "beta gamma", None, 2),
        prose(2, "alpha gamma", None, 3),
        prose(3, "delta", None, 4),
    ]);
    let both = SearchQuery::And(Box::new(leaf("alpha")), Box::new(leaf("gamma")));
    assert_eq!(searcher.find_threads_by_query(both), vec![2]);
    let either = SearchQuery::Or(Box::new(leaf("alpha")), Box::new(leaf("DELTA")));
    assert_eq!(searcher.find_threads_by_query(either), vec![0, 2, 3]);
    let nested = SearchQuery::And(
        Box::new(SearchQuery::Or(Box::new(leaf("alpha")), Box::new(leaf("beta")))),
        Box::new(leaf("gamma")),
    );
    assert_eq!(searcher.find_threads_by_query(nested), vec![1, 2]);
    assert_eq!(searcher.find_threads_by_query(leaf("omega")), Vec::<usize>::new());
}

#[test]
fn a_query_string_is_read_with_its_operators() {
    let searcher = engine(vec![
        prose(0, "alpha beta", None, 1),
        prose(1, "beta gamma", None, 2),
        prose(2, "alpha gamma", None, 3),
    ]);
    let ids = |query: &str| -> Vec<u32> {
        searcher.find_threads(query.to_string()).unwrap().iter().map(|h| h.thread_id).collect()
    };
    assert_eq!(ids("alpha AND beta OR gamma"), vec![2, 1, 0]);
    assert_eq!(ids("alpha AND (beta OR gamma)"), vec![2, 0]);
    assert_eq!(ids("(alpha OR beta) AND gamma"), vec![2, 1]);
}

#[test]
fn a_string_that_is_no_query_is_reported() {
    let searcher = engine(hello_archive());
    assert_eq!(
        searcher.find_threads("hello AND".to_string()),
        Err(SearchError::QuerySyntax { position: 9 })
    );
    assert_eq!(
        searcher.find_threads("hello world".to_string()),
        Err(SearchError::QuerySyntax { position: 6 })
    );
    assert_eq!(
        searcher.find_threads("".to_string()),
        Err(SearchError::QuerySyntax { position: 0 })
    );
    // The engine answers the next request as before.
    assert_eq!(searcher.find_threads("hello".to_string()), Ok(vec![hit(0, "hello world", 100)]));
}

#[test]
fn the_words_of_a_query_string_are_normalized() {
    let searcher = engine(vec![]);
    assert_eq!(
        searcher.get_query_words("Hello AND (again OR it)".to_string()),
        words(&["hello", "again", "it"])
    );
    assert_eq!(searcher.get_query_words("".to_string()), Vec::<String>::new());
    // The string need not be a query.
    assert_eq!(
        searcher.get_query_words("one, TWO three)".to_string()),
        words(&["one", "two", "three"])
    );
}

#[test]
fn the_words_of_a_query_string_feed_the_highlighting() {
    let searcher = engine(vec![prose(0, "It is so", None, 1)]);
    let asked = searcher.get_query_words("it OR so".to_string());
    assert_eq!(
        searcher.get_message_range(0, 0, asked),
        Ok(vec![MessageResult {
            message_id: 0,
            text: vec![marked("It"), plain(" "), plain("is"), plain(" "), marked("so")],
            reply_to_text: None,
        }])
    );
}

#[test]
fn highlighting_keeps_the_text_as_it_was_written() {
    let searcher = engine(vec![]);
    assert_eq!(
        searcher.highlight_substrings("Hello, world!".to_string(), &words(&["hello"])),
        vec![marked("Hello"), plain(","), plain(" "), plain("world"), plain("!")]
    );
}

#[test]
fn highlighting_without_query_words_marks_nothing() {
    let searcher = engine(vec![]);
    assert_eq!(
        searcher.highlight_substrings("a b".to_string(), &[]),
        vec![plain("a"), plain(" "), plain("b")]
    );
    assert_eq!(searcher.highlight_substrings("".to_string(), &words(&["a"])), Vec::<Text>::new());
}

#[test]
fn every_separator_is_a_span_of_its_own() {
    let searcher = engine(vec![]);
    assert_eq!(
        searcher.highlight_substrings("  so...".to_string(), &words(&["so"])),
        vec![plain(" "), plain(" "), marked("so"), plain("."), plain("."), plain(".")]
    );
}

#[test]
fn highlighting_goes_by_the_canonical_form() {
    let mut dictionary = DictionaryLemmatizer::new();
    dictionary.insert("mice".to_string(), "mouse".to_string());
    let searcher = Searcher::new(dictionary, vec![]).unwrap();
    assert_eq!(
        searcher.highlight_substrings("Mice and mouse".to_string(), &words(&["mouse"])),
        vec![marked("Mice"), plain(" "), plain("and"), plain(" "), marked("mouse")]
    );
}

#[test]
fn text_that_is_no_prose_is_one_plain_span() {
    let searcher = engine(vec![]);
    let text = vec![
        TextEntity::Lemmatizable("see ".to_string()),
        TextEntity::Illemmatizable("see https://example.org".to_string()),
        TextEntity::Lemmatizable("see".to_string()),
    ];
    assert_eq!(
        searcher.get_highlighted_text(text, &words(&["see"])),
        vec![marked("see"), plain(" "), plain("see https://example.org"), marked("see")]
    );
    assert_eq!(searcher.get_highlighted_text(vec![], &words(&["see"])), Vec::<Text>::new());
}

#[test]
fn a_range_with_the_first_identifier_above_the_last_is_empty() {
    let searcher = engine(hello_archive());
    assert_eq!(searcher.get_message_range(5, 2, vec![]), Ok(vec![]));
    assert_eq!(searcher.get_message_range(1, 0, words(&["hello"])), Ok(vec![]));
}

#[test]
fn a_range_shows_every_message_in_it() {
    let searcher = engine(vec![
        prose(0, "first thread", None, 1),
        prose(1, "second thread", None, 2),
        prose(2, "answer", Some(0), 3),
    ]);
    // Thread 0 spans the messages 0 to 2; message 1 is shown though it is
    // no member.
    assert_eq!(searcher.get_thread_messages(0), Ok((0, 2)));
    assert_eq!(
        searcher.get_message_range(0, 2, words(&["thread"])),
        Ok(vec![
            MessageResult {
                message_id: 0,
                text: vec![plain("first"), plain(" "), marked("thread")],
                reply_to_text: None,
            },
            MessageResult {
                message_id: 1,
                text: vec![plain("second"), plain(" "), marked("thread")],
                reply_to_text: None,
            },
            MessageResult {
                message_id: 2,
                text: vec![plain("answer")],
                reply_to_text: Some("first thread".to_string()),
            },
        ])
    );
}

#[test]
fn a_range_of_one_message_shows_that_message() {
    let searcher = engine(hello_archive());
    assert_eq!(
        searcher.get_message_range(1, 1, words(&["again"])),
        Ok(vec![MessageResult {
            message_id: 1,
            text: vec![plain("hello"), plain(" "), marked("again")],
            reply_to_text: Some("hello world".to_string()),
        }])
    );
}

#[test]
fn a_range_beyond_the_archive_is_reported() {
    let searcher = engine(hello_archive());
    assert_eq!(
        searcher.get_message_range(0, 2, vec![]),
        Err(SearchError::MessageOutOfRange { message_id: 2 })
    );
    assert_eq!(
        searcher.get_message_range(7, 9, vec![]),
        Err(SearchError::MessageOutOfRange { message_id: 9 })
    );
    assert_eq!(
        engine(vec![]).get_message_range(0, 0, vec![]),
        Err(SearchError::MessageOutOfRange { message_id: 0 })
    );
}

#[test]
fn an_unknown_thread_is_reported() {
    let searcher = engine(vec![]);
    assert_eq!(
        searcher.get_thread_messages(0),
        Err(SearchError::ThreadOutOfRange { thread_id: 0 })
    );
}

#[test]
fn an_archive_that_is_not_well_formed_gives_no_engine() {
    let wrong_id = vec![prose(0, "a", None, 1), prose(5, "b", None, 2)];
    assert!(matches!(
        Searcher::new(DictionaryLemmatizer::new(), wrong_id),
        Err(SearchError::MalformedArchive { position: 1 })
    ));
    let answers_later = vec![prose(0, "a", Some(1), 1), prose(1, "b", None, 2)];
    assert!(matches!(
        Searcher::new(DictionaryLemmatizer::new(), answers_later),
        Err(SearchError::MalformedArchive { position: 0 })
    ));
}

#[test]
fn an_empty_archive_answers_with_nothing() {
    let searcher = engine(vec![]);
    assert_eq!(searcher.find_threads("word".to_string()), Ok(vec![]));
    assert_eq!(searcher.find_threads_by_word("word".to_string()), Vec::<usize>::new());
}

#[test]
fn the_index_lists_threads_in_ascending_order() {
    let mut index = InvertedIndex::new();
    index.register("word".to_string(), 0);
    index.register("word".to_string(), 0);
    index.register("other".to_string(), 1);
    index.register("word".to_string(), 2);
    assert_eq!(index.lookup("word"), vec![0, 2]);
    assert_eq!(index.lookup("other"), vec![1]);
    assert_eq!(index.lookup("absent"), Vec::<usize>::new());
}

#[test]
fn the_index_ignores_a_thread_that_comes_too_late() {
    let mut index = InvertedIndex::new();
    index.register("word".to_string(), 3);
    index.register("word".to_string(), 1);
    assert_eq!(index.lookup("word"), vec![3]);
}

#[test]
fn the_index_is_built_thread_by_thread() {
    let messages = vec![
        prose(0, "shared first", None, 1),
        prose(1, "shared second", None, 2),
        prose(2, "shared third", Some(0), 3),
    ];
    let threads = vec![vec![0, 2], vec![1]];
    let index = build_index(&DictionaryLemmatizer::new(), &messages, &threads);
    assert_eq!(index.lookup("shared"), vec![0, 1]);
    assert_eq!(index.lookup("third"), vec![0]);
    assert_eq!(index.lookup("second"), vec![1]);
}

#[test]
fn a_word_is_marked_where_the_query_words_hold_its_form() {
    let asked = words(&["run", "walk"]);
    assert_eq!(mark_word("Running".to_string(), &"run".to_string(), &asked), marked("Running"));
    assert_eq!(mark_word("Running".to_string(), &"running".to_string(), &asked), plain("Running"));
    assert!(contains_word(&asked, &"walk".to_string()));
    assert!(!contains_word(&asked, &"Walk".to_string()));
    assert!(!contains_word(&[], &"walk".to_string()));
}

#[test]
fn results_can_be_copied() {
    let found = hit(3, "title", 9);
    assert_eq!(found.clone(), found);
    assert_eq!(marked("x").clone(), marked("x"));
}

#[test]
fn the_spans_of_a_text_spell_the_text() {
    let searcher = engine(vec![]);
    let text = "  Wait -- what?! Ünïcödé, too;\tand\nnew lines_";
    let spans = searcher.highlight_substrings(text.to_string(), &words(&["what", "too"]));
    let spelled: String = spans
        .iter()
        .map(|span| match span {
            Text::Plain(t) => t.as_str(),
            Text::Highlight(t) => t.as_str(),
        })
        .collect();
    assert_eq!(spelled, text);
    assert!(spans.contains(&marked("what")));
    assert!(spans.contains(&marked("too")));
    assert!(spans.contains(&plain("Ünïcödé")));
}

#[test]
fn the_spans_of_a_message_spell_its_plain_text() {
    let message = Message {
        id: 0,
        reply_to_message_id: None,
        date_unixtime: 0,
        text_entities: vec![
            TextEntity::Lemmatizable("Look: ".to_string()),
            TextEntity::Illemmatizable("@someone".to_string()),
            TextEntity::Lemmatizable(" said so.".to_string()),
        ],
    };
    let searcher = engine(vec![message.clone()]);
    let shown = searcher.get_message_range(0, 0, words(&["said"])).unwrap();
    let spelled: String = shown[0]
        .text
        .iter()
        .map(|span| match span {
            Text::Plain(t) => t.as_str(),
            Text::Highlight(t) => t.as_str(),
        })
        .collect();
    assert_eq!(spelled, thread_search::message::render_plain(&message));
    assert_eq!(spelled, "Look: @someone said so.");
}
