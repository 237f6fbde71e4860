use duallity::text::{chars_of, str_segment_by_char_width};
use duallity::vocabulary::{
    next_vocab_id, usize_from_vocab_id, vocab_capacity_limit, Vocabulary, VOCAB_ID_EXHAUSTED,
};

#[test]
fn test_next_vocab_id_reserves_exhaustion_sentinel() {
    assert_eq!(next_vocab_id(0), Some(0));

    let Ok(max_vocab_id) = usize::try_from(u32::MAX) else {
        return;
    };
    assert_eq!(next_vocab_id(max_vocab_id), None);

    if let Some(last_assignable) = max_vocab_id.checked_sub(1) {
        assert_eq!(next_vocab_id(last_assignable), Some(u32::MAX - 1));
    }
}

#[test]
fn vocab_limits_follow_the_sentinel() {
    assert_eq!(VOCAB_ID_EXHAUSTED, u32::MAX);
    assert_eq!(vocab_capacity_limit() as u64, u32::MAX as u64);
    assert_eq!(usize_from_vocab_id(7), 7);
}

#[test]
fn vocabulary_interns_each_word_once() {
    let mut vocabulary = Vocabulary::new();
    assert_eq!(vocabulary.vocab_size(), 0);
    assert!(vocabulary.has_vocab_capacity());

    let id1 = vocabulary.try_intern("hello");
    let id2 = vocabulary.try_intern("world");
    let id3 = vocabulary.try_intern("hello");

    assert_eq!(id1, Some(0));
    assert_eq!(id2, Some(1));
    assert_eq!(id1, id3);
    assert_eq!(vocabulary.vocab_size(), 2);
    assert_eq!(vocabulary.lookup(0), Some("hello"));
    assert_eq!(vocabulary.lookup(1), Some("world"));
    assert_eq!(vocabulary.lookup(2), None);
    assert_eq!(vocabulary.get_id("world"), Some(1));
    assert_eq!(vocabulary.get_id("missing"), None);
    assert!(vocabulary.contains("hello"));
    assert!(!vocabulary.contains("missing"));
    assert_eq!(vocabulary.entries(), vec![(0, "hello"), (1, "world")]);
}

#[test]
fn vocabulary_from_terms_keeps_first_occurrence_order() {
    let terms = vec!["b".to_owned(), "a".to_owned(), "b".to_owned()];
    let vocabulary = Vocabulary::with_vocabulary(terms.clone());
    assert_eq!(vocabulary.entries(), vec![(0, "b"), (1, "a")]);
    let all = Vocabulary::try_with_vocabulary(terms).expect("ids are available");
    assert_eq!(all.vocab_size(), 2);
    assert_eq!(all.get_id("a"), Some(1));
}

#[test]
fn chars_of_lists_scalars() {
    assert_eq!(chars_of("aé"), vec!['a', 'é']);
    assert_eq!(chars_of(""), Vec::<char>::new());
}

#[test]
fn str_segments_are_measured_in_scalars() {
    let text = "aéb€c";
    assert_eq!(str_segment_by_char_width(text, 0, 2), Some(("aé", 3)));
    assert_eq!(str_segment_by_char_width(text, 1, 2), Some(("éb", 4)));
    assert_eq!(str_segment_by_char_width(text, 4, 1), Some(("€", 7)));
    assert_eq!(str_segment_by_char_width(text, 3, 0), Some(("", 3)));
    assert_eq!(str_segment_by_char_width(text, 2, 1), None);
    assert_eq!(str_segment_by_char_width(text, 0, 6), None);
    assert_eq!(str_segment_by_char_width(text, 9, 0), None);
    assert_eq!(str_segment_by_char_width(text, 8, 0), Some(("", 8)));
}
