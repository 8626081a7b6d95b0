use thread_search::error::SearchError;
use thread_search::message::{first_misplaced, render_plain, Message, TextEntity};
use thread_search::thread_dsu::ThreadDSU;
use thread_search::threads::build_threads;

fn message(id: usize, reply_to: Option<usize>) -> Message {
    Message {
        id,
        reply_to_message_id: reply_to,
        date_unixtime: 0,
        text_entities: vec![],
    }
}

fn filled(n: usize) -> ThreadDSU {
    let mut dsu = ThreadDSU::new();
    for id in 0..n {
        assert_eq!(dsu.make_set(id), Ok(()));
    }
    dsu
}

#[test]
fn a_new_structure_holds_no_set() {
    let mut dsu = ThreadDSU::new();
    assert_eq!(dsu.len(), 0);
    assert_eq!(dsu.get_threads(), Vec::<Vec<usize>>::new());
}

#[test]
fn every_new_identifier_stands_alone() {
    let mut dsu = filled(3);
    assert_eq!(dsu.len(), 3);
    assert_eq!(dsu.get_threads(), vec![vec![0], vec![1], vec![2]]);
    assert_eq!(dsu.find(2), Ok(2));
}

#[test]
fn identifiers_must_come_in_order() {
    let mut dsu = filled(2);
    assert_eq!(dsu.make_set(5), Err(SearchError::MessageOutOfRange { message_id: 5 }));
    assert_eq!(dsu.make_set(1), Err(SearchError::MessageOutOfRange { message_id: 1 }));
    assert_eq!(dsu.len(), 2);
}

#[test]
fn unknown_identifiers_are_turned_down() {
    let mut dsu = filled(2);
    assert_eq!(dsu.union_sets(2, 0), Err(SearchError::MessageOutOfRange { message_id: 2 }));
    assert_eq!(dsu.union_sets(0, 7), Err(SearchError::MessageOutOfRange { message_id: 7 }));
    assert_eq!(dsu.union_sets(8, 9), Err(SearchError::MessageOutOfRange { message_id: 8 }));
    assert_eq!(dsu.find(2), Err(SearchError::MessageOutOfRange { message_id: 2 }));
    assert_eq!(dsu.get_threads(), vec![vec![0], vec![1]]);
}

#[test]
fn union_joins_two_sets() {
    let mut dsu = filled(4);
    assert_eq!(dsu.union_sets(0, 2), Ok(()));
    assert_eq!(dsu.find(0), dsu.find(2));
    assert_ne!(dsu.find(0), dsu.find(1));
    assert_eq!(dsu.get_threads(), vec![vec![0, 2], vec![1], vec![3]]);
}

#[test]
fn union_is_transitive() {
    let mut dsu = filled(5);
    assert_eq!(dsu.union_sets(0, 1), Ok(()));
    assert_eq!(dsu.union_sets(1, 4), Ok(()));
    assert_eq!(dsu.find(0), dsu.find(4));
    assert_eq!(dsu.get_threads(), vec![vec![0, 1, 4], vec![2], vec![3]]);
}

#[test]
fn union_of_a_set_with_itself_changes_nothing() {
    let mut dsu = filled(3);
    assert_eq!(dsu.union_sets(1, 1), Ok(()));
    assert_eq!(dsu.union_sets(0, 1), Ok(()));
    assert_eq!(dsu.union_sets(1, 0), Ok(()));
    assert_eq!(dsu.get_threads(), vec![vec![0, 1], vec![2]]);
}

#[test]
fn the_sets_are_listed_by_their_smallest_members() {
    let mut dsu = filled(6);
    // Joined in an order that makes a later member the root of a set.
    assert_eq!(dsu.union_sets(5, 4), Ok(()));
    assert_eq!(dsu.union_sets(3, 2), Ok(()));
    assert_eq!(dsu.union_sets(5, 3), Ok(()));
    assert_eq!(dsu.union_sets(1, 0), Ok(()));
    assert_eq!(dsu.get_threads(), vec![vec![0, 1], vec![2, 3, 4, 5]]);
    // Asking again gives the same lists.
    assert_eq!(dsu.get_threads(), vec![vec![0, 1], vec![2, 3, 4, 5]]);
}

#[test]
fn long_chains_are_followed_to_their_root() {
    let n = 2000;
    let mut dsu = filled(n);
    for id in 1..n {
        assert_eq!(dsu.union_sets(id - 1, id), Ok(()));
    }
    let root = dsu.find(0);
    assert_eq!(dsu.find(n - 1), root);
    let threads = dsu.get_threads();
    assert_eq!(threads.len(), 1);
    assert_eq!(threads[0], (0..n).collect::<Vec<usize>>());
}

#[test]
fn a_reply_joins_the_thread_of_the_message_it_answers() {
    let messages = vec![message(0, None), message(1, Some(0)), message(2, None)];
    assert_eq!(build_threads(&messages), Ok(vec![vec![0, 1], vec![2]]));
}

#[test]
fn replies_to_replies_share_one_thread() {
    // 3 answers 1, 1 answers 0: all three are one thread.
    let messages = vec![
        message(0, None),
        message(1, Some(0)),
        message(2, None),
        message(3, Some(1)),
        message(4, Some(2)),
    ];
    assert_eq!(build_threads(&messages), Ok(vec![vec![0, 1, 3], vec![2, 4]]));
}

#[test]
fn threads_are_numbered_by_their_first_messages() {
    let messages = vec![
        message(0, None),
        message(1, None),
        message(2, Some(1)),
        message(3, Some(0)),
        message(4, None),
        message(5, Some(2)),
    ];
    let threads = build_threads(&messages).unwrap();
    assert_eq!(threads, vec![vec![0, 3], vec![1, 2, 5], vec![4]]);
    for thread in &threads {
        assert!(thread.windows(2).all(|pair| pair[0] < pair[1]));
    }
    assert!(threads.windows(2).all(|pair| pair[0][0] < pair[1][0]));
    // Building again numbers the threads in the same way.
    assert_eq!(build_threads(&messages).unwrap(), threads);
}

#[test]
fn a_message_without_replies_is_a_thread_of_its_own() {
    assert_eq!(build_threads(&vec![message(0, None)]), Ok(vec![vec![0]]));
    assert_eq!(build_threads(&vec![]), Ok(vec![]));
}

#[test]
fn a_message_that_answers_itself_stands_alone() {
    let messages = vec![message(0, Some(0)), message(1, Some(1)), message(2, Some(1))];
    assert_eq!(build_threads(&messages), Ok(vec![vec![0], vec![1, 2]]));
}

#[test]
fn a_wrong_identifier_is_reported_with_its_position() {
    let messages = vec![message(0, None), message(2, None), message(1, None)];
    assert_eq!(first_misplaced(&messages), Some(1));
    assert_eq!(build_threads(&messages), Err(SearchError::MalformedArchive { position: 1 }));
}

#[test]
fn a_reply_to_a_later_message_is_reported_with_its_position() {
    let messages = vec![message(0, None), message(1, None), message(2, Some(3)), message(3, None)];
    assert_eq!(first_misplaced(&messages), Some(2));
    assert_eq!(build_threads(&messages), Err(SearchError::MalformedArchive { position: 2 }));
    let beyond = vec![message(0, Some(9))];
    assert_eq!(build_threads(&beyond), Err(SearchError::MalformedArchive { position: 0 }));
}

#[test]
fn a_well_formed_archive_has_no_misplaced_message() {
    let messages = vec![message(0, None), message(1, Some(0)), message(2, Some(2))];
    assert_eq!(first_misplaced(&messages), None);
}

#[test]
fn plain_rendering_joins_the_stretches() {
    let shown = Message {
        id: 0,
        reply_to_message_id: None,
        date_unixtime: 1,
        text_entities: vec![
            TextEntity::Lemmatizable("see ".to_string()),
            TextEntity::Illemmatizable("https://example.org".to_string()),
            TextEntity::Lemmatizable("!".to_string()),
        ],
    };
    assert_eq!(render_plain(&shown), "see https://example.org!");
    assert_eq!(render_plain(&message(0, None)), "");
}
