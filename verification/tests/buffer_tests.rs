use zoo::text_buffer::{SegmentKind, TextBuffer, TextBufferError};

#[test]
fn tokenisation_tracks_words_and_separators() {
    let buffer = TextBuffer::from_str("Hello  world!\n");
    let segments = buffer.segments();
    assert_eq!(segments.len(), 4);
    assert_eq!(segments[0].text(), "Hello");
    assert_eq!(segments[0].kind(), SegmentKind::Word);
    assert_eq!(segments[1].text(), "  ");
    assert_eq!(segments[1].kind(), SegmentKind::Separator);
    assert_eq!(segments[2].text(), "world!");
    assert_eq!(segments[2].kind(), SegmentKind::Word);
    assert_eq!(segments[3].text(), "\n");
    assert_eq!(segments[3].kind(), SegmentKind::Separator);

    assert_eq!(buffer.char_len(), "Hello  world!\n".chars().count());
    assert_eq!(buffer.word_count(), 2);
}

#[test]
fn replacing_words_updates_segments_and_metadata() {
    let mut buffer = TextBuffer::from_str("Hello world");
    buffer.replace_word(1, "galaxy").unwrap();
    assert_eq!(buffer.to_string(), "Hello galaxy");
    let spans = buffer.spans();
    assert_eq!(spans.len(), 3);
    assert_eq!(spans[2].char_range, 6..12);
}

#[test]
fn deleting_words_removes_segments() {
    let mut buffer = TextBuffer::from_str("Hello brave world");
    buffer.delete_word(1).unwrap();
    assert_eq!(buffer.to_string(), "Hello  world");
    assert_eq!(buffer.word_count(), 2);
    assert_eq!(buffer.spans().len(), 4);
    assert!(buffer.spans()[1..3]
        .iter()
        .all(|span| matches!(span.kind, SegmentKind::Separator)));
}

#[test]
fn inserting_words_preserves_separator_control() {
    let mut buffer = TextBuffer::from_str("Hello world");
    buffer.insert_word_after(0, "there", Some(", ")).unwrap();
    assert_eq!(buffer.to_string(), "Hello, there world");
    assert_eq!(buffer.word_count(), 3);
    assert_eq!(buffer.spans().len(), 5);
}

#[test]
fn bulk_replace_words_updates_multiple_entries() {
    let mut buffer = TextBuffer::from_str("alpha beta gamma delta");
    buffer
        .replace_words_bulk(vec![(0, "delta".to_string()), (3, "alpha".to_string())])
        .expect("bulk replace succeeds");
    assert_eq!(buffer.to_string(), "delta beta gamma alpha");
    let spans = buffer.spans();
    assert_eq!(spans[0].char_range, 0..5);
    assert_eq!(spans.len(), 7);
    assert_eq!(spans.last().unwrap().char_range, 17..22);
}

#[test]
fn replace_char_range_handles_multisegment_updates() {
    let mut buffer = TextBuffer::from_str("Hello world");
    buffer
        .replace_char_range(6..11, "galaxy")
        .expect("char replacement succeeded");
    assert_eq!(buffer.to_string(), "Hello galaxy");
    assert_eq!(buffer.word_count(), 2);
    assert_eq!(buffer.spans().len(), 3);
}

#[test]
fn invalid_operations_return_errors() {
    let mut buffer = TextBuffer::from_str("Hello");
    let err = buffer.replace_word(1, "world").unwrap_err();
    assert!(matches!(err, TextBufferError::InvalidWordIndex { .. }));

    let err = buffer
        .replace_char_range(2..10, "x")
        .expect_err("range outside bounds");
    assert!(matches!(err, TextBufferError::InvalidCharRange { .. }));
}

#[test]
fn round_trip_preserves_text_exactly() {
    let samples = ["", " ", "Hello world", "  leading and trailing  ", "tabs\tand\nnewlines", "punct., here; too"];
    for sample in samples {
        let buffer = TextBuffer::from_str(sample);
        assert_eq!(buffer.to_string(), sample);
    }
}

#[test]
fn spans_partition_characters_and_bytes() {
    let buffer = TextBuffer::from_str("Hej  världen!\n");
    let spans = buffer.spans();
    let mut char_cursor = 0usize;
    let mut byte_cursor = 0usize;
    for span in spans {
        assert_eq!(span.char_range.start, char_cursor);
        assert_eq!(span.byte_range.start, byte_cursor);
        assert!(span.char_range.end >= span.char_range.start);
        char_cursor = span.char_range.end;
        byte_cursor = span.byte_range.end;
    }
    assert_eq!(char_cursor, "Hej  världen!\n".chars().count());
    assert_eq!(byte_cursor, "Hej  världen!\n".len());
}

#[test]
fn normalize_collapses_separators_and_trims() {
    let mut buffer = TextBuffer::from_str("  Hello   world , again  ");
    buffer.normalize();
    assert_eq!(buffer.to_string(), "Hello world, again");

    let mut punct = TextBuffer::from_str("word   . next");
    punct.normalize();
    assert_eq!(punct.to_string(), "word. next");
}

#[test]
fn merge_repeated_char_words_joins_runs() {
    let mut buffer = TextBuffer::from_str("aa bb ██ ██ cc");
    buffer.merge_repeated_char_words("█");
    assert_eq!(buffer.to_string(), "aa bb ████ cc");

    let mut unchanged = TextBuffer::from_str("one two");
    unchanged.merge_repeated_char_words("");
    assert_eq!(unchanged.to_string(), "one two");
}

#[test]
fn word_segment_resolves_word_indices() {
    let buffer = TextBuffer::from_str("one two three");
    assert_eq!(buffer.word_segment(0).unwrap().text(), "one");
    assert_eq!(buffer.word_segment(2).unwrap().text(), "three");
    assert!(buffer.word_segment(3).is_none());
}

#[test]
fn segments_with_word_indices_numbers_words_densely() {
    let buffer = TextBuffer::from_str("a  b c");
    let entries = buffer.segments_with_word_indices();
    assert_eq!(entries.len(), 5);
    assert_eq!(entries[0].2, Some(0));
    assert_eq!(entries[1].2, None);
    assert_eq!(entries[2].2, Some(1));
    assert_eq!(entries[4].2, Some(2));
}

#[test]
fn replace_segment_keeps_kind() {
    let mut buffer = TextBuffer::from_str("one two");
    buffer
        .replace_segment(1, "   ".to_string())
        .expect("segment replacement succeeds");
    assert_eq!(buffer.to_string(), "one   two");
    assert_eq!(buffer.segments()[1].kind(), SegmentKind::Separator);
    buffer
        .replace_segments_bulk(vec![(0, "ONE".to_string())])
        .expect("bulk segment replacement succeeds");
    assert_eq!(buffer.to_string(), "ONE   two");

    let err = buffer.replace_segment(9, "x".to_string()).unwrap_err();
    assert!(matches!(err, TextBufferError::InvalidWordIndex { index: 9 }));
    let err = buffer
        .replace_segments_bulk(vec![(0, "one".to_string()), (9, "x".to_string())])
        .unwrap_err();
    assert!(matches!(err, TextBufferError::InvalidWordIndex { index: 9 }));
    assert_eq!(buffer.to_string(), "ONE   two");
}
