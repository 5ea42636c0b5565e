use chunker::window::{chunk_text_with_overlap, window_clusters, ChunkError};
use unicode_segmentation::UnicodeSegmentation;

fn strings(list: &[&str]) -> Vec<String> {
    list.iter().map(|s| s.to_string()).collect()
}

#[test]
fn windows_of_four_with_overlap_two() {
    let chunks = chunk_text_with_overlap("abcdefgh", 4, 2).unwrap();
    assert_eq!(chunks, strings(&["abcd", "cdef", "efgh"]));
}

#[test]
fn zero_chunk_size_is_rejected() {
    assert_eq!(chunk_text_with_overlap("abc", 0, 0), Err(ChunkError::InvalidParameter));
    assert_eq!(chunk_text_with_overlap("", 0, 0), Err(ChunkError::InvalidParameter));
}

#[test]
fn overlap_as_large_as_the_window_is_rejected() {
    assert_eq!(chunk_text_with_overlap("abcdef", 3, 3), Err(ChunkError::InvalidParameter));
    assert_eq!(chunk_text_with_overlap("abcdef", 3, 4), Err(ChunkError::InvalidParameter));
    assert_eq!(chunk_text_with_overlap("abcdef", 1, usize::MAX), Err(ChunkError::InvalidParameter));
}

#[test]
fn the_error_says_what_was_wrong() {
    assert_eq!(
        ChunkError::InvalidParameter.message(),
        "Chunk size must be greater than zero and greater than overlap size"
    );
}

#[test]
fn windows_without_overlap_tile_the_text() {
    assert_eq!(chunk_text_with_overlap("abcdef", 2, 0).unwrap(), strings(&["ab", "cd", "ef"]));
    assert_eq!(chunk_text_with_overlap("abcdef", 6, 0).unwrap(), strings(&["abcdef"]));
    assert_eq!(chunk_text_with_overlap("abcdef", 1, 0).unwrap().len(), 6);
}

#[test]
fn a_window_that_does_not_fit_is_not_cut() {
    // the last full window ends at 6; "g" alone is left out
    assert_eq!(chunk_text_with_overlap("abcdefg", 3, 0).unwrap(), strings(&["abc", "def"]));
    assert_eq!(chunk_text_with_overlap("abcdefg", 4, 1).unwrap(), strings(&["abcd", "defg"]));
    assert_eq!(chunk_text_with_overlap("abc", 4, 1).unwrap(), Vec::<String>::new());
    assert_eq!(chunk_text_with_overlap("", 1, 0).unwrap(), Vec::<String>::new());
    assert_eq!(chunk_text_with_overlap("abc", usize::MAX, 0).unwrap(), Vec::<String>::new());
}

#[test]
fn window_count_follows_the_formula() {
    // (available - size) / (size - overlap) + 1
    let text = "0123456789";
    assert_eq!(chunk_text_with_overlap(text, 4, 2).unwrap().len(), 4);
    assert_eq!(chunk_text_with_overlap(text, 4, 3).unwrap().len(), 7);
    assert_eq!(chunk_text_with_overlap(text, 3, 1).unwrap().len(), 4);
    assert_eq!(chunk_text_with_overlap(text, 10, 9).unwrap().len(), 1);
    assert_eq!(chunk_text_with_overlap(text, 11, 0).unwrap().len(), 0);
}

#[test]
fn neighbouring_windows_share_the_overlap() {
    let chunks = chunk_text_with_overlap("abcdefghij", 5, 3).unwrap();
    assert_eq!(chunks, strings(&["abcde", "cdefg", "efghi"]));
    for pair in chunks.windows(2) {
        assert_eq!(pair[0][2..], pair[1][..3]);
    }
}

#[test]
fn windows_count_clusters_not_chars() {
    // three clusters of two, two and three chars
    let text = "a\u{310}e\u{301}o\u{308}\u{332}";
    assert_eq!(
        chunk_text_with_overlap(text, 2, 1).unwrap(),
        strings(&["a\u{310}e\u{301}", "e\u{301}o\u{308}\u{332}"])
    );
    assert_eq!(
        chunk_text_with_overlap(text, 1, 0).unwrap(),
        strings(&["a\u{310}", "e\u{301}", "o\u{308}\u{332}"])
    );
}

#[test]
fn windows_keep_flags_and_line_ends_whole() {
    let text = "b\u{1F1F7}\u{1F1FA}\u{1F1F8}\u{1F1F9}";
    assert_eq!(
        chunk_text_with_overlap(text, 1, 0).unwrap(),
        strings(&["b", "\u{1F1F7}\u{1F1FA}", "\u{1F1F8}\u{1F1F9}"])
    );
}

#[test]
fn the_count_comes_from_the_normalized_text() {
    // ten clusters as it stands, seven once normalized: one window of four
    assert_eq!(chunk_text_with_overlap("a  b  c  d", 4, 0).unwrap(), strings(&["a  b"]));
    // two clusters as it stands, none once normalized
    assert_eq!(chunk_text_with_overlap("  ", 1, 0).unwrap(), Vec::<String>::new());
    // leading whitespace is cut off the count, not off the text
    assert_eq!(chunk_text_with_overlap("   ab", 2, 0).unwrap(), strings(&["  "]));
}

#[test]
fn window_clusters_cuts_the_given_clusters() {
    let clusters = strings(&["a", "b", "c", "d", "e"]);
    assert_eq!(window_clusters(&clusters, 5, 2, 1).unwrap(), strings(&["ab", "bc", "cd", "de"]));
    assert_eq!(window_clusters(&clusters, 3, 2, 1).unwrap(), strings(&["ab", "bc"]));
    assert_eq!(window_clusters(&clusters, 0, 2, 1).unwrap(), Vec::<String>::new());
}

#[test]
fn window_clusters_past_the_end_holds_what_is_there() {
    let clusters = strings(&["a", "b", "c"]);
    assert_eq!(window_clusters(&clusters, 8, 2, 0).unwrap(), strings(&["ab", "c", "", ""]));
    assert_eq!(window_clusters(&Vec::new(), 2, 1, 0).unwrap(), strings(&["", ""]));
}

#[test]
fn window_clusters_rejects_bad_parameters() {
    let clusters = strings(&["a", "b"]);
    assert_eq!(window_clusters(&clusters, 2, 0, 0), Err(ChunkError::InvalidParameter));
    assert_eq!(window_clusters(&clusters, 2, 2, 2), Err(ChunkError::InvalidParameter));
}

#[test]
fn window_clusters_with_the_largest_numbers() {
    let clusters = strings(&["a", "b"]);
    assert_eq!(window_clusters(&clusters, usize::MAX, usize::MAX, 0).unwrap(), strings(&["ab"]));
    assert_eq!(
        window_clusters(&clusters, usize::MAX, usize::MAX, usize::MAX - 1).unwrap().len(),
        1
    );
}

#[test]
fn no_window_holds_more_clusters_than_asked() {
    let texts = [
        "plain ascii text of some length",
        "a\u{310}e\u{301}o\u{308}\u{332} and more",
        "line\r\nends\r\nhere",
        "\u{1F1F7}\u{1F1FA}\u{1F1F8}\u{1F1F9}\u{1F1E9}\u{1F1EA}",
    ];
    for text in texts {
        for size in 1..6 {
            for overlap in 0..size {
                for chunk in chunk_text_with_overlap(text, size, overlap).unwrap() {
                    assert!(chunk.graphemes(true).count() <= size);
                }
            }
        }
    }
}

#[test]
fn full_windows_share_exactly_the_overlap() {
    let text = "a\u{310}bcde\u{301}fgh\u{1F1F7}\u{1F1FA}ij";
    for size in 1..6 {
        for overlap in 0..size {
            let chunks = chunk_text_with_overlap(text, size, overlap).unwrap();
            for pair in chunks.windows(2) {
                let first: Vec<&str> = pair[0].graphemes(true).collect();
                let second: Vec<&str> = pair[1].graphemes(true).collect();
                assert_eq!(first.len(), size);
                assert_eq!(second.len(), size);
                assert_eq!(first[size - overlap..], second[..overlap]);
            }
        }
    }
}
