use tsundoku::chunker::{split_text_into_chunks, split_text_into_line_chunks};

#[test]
fn test_split_empty_text() {
    let chunks = split_text_into_line_chunks("", 100);
    assert_eq!(chunks.len(), 0);
}

#[test]
fn test_split_single_line() {
    let text = "Hello world";
    let chunks = split_text_into_line_chunks(text, 100);
    assert_eq!(chunks.len(), 1);
    assert_eq!(chunks[0], text);
}

#[test]
fn test_split_multiple_lines_fits() {
    let text = "Line 1\nLine 2\nLine 3";
    let chunks = split_text_into_line_chunks(text, 100);
    assert_eq!(chunks.len(), 1);
    assert_eq!(chunks[0], text);
}

#[test]
fn test_split_multiple_chunks_needed() {
    let text = "Line 1\nLine 2\nLine 3\nLine 4";
    let chunks = split_text_into_line_chunks(text, 15);
    assert_eq!(chunks.len(), 2);
    assert_eq!(chunks[0], "Line 1\nLine 2");
    assert_eq!(chunks[1], "Line 3\nLine 4");
}

#[test]
fn test_split_single_long_line() {
    let text = "This is a very long line that exceeds the chunk size limit";
    let chunks = split_text_into_line_chunks(text, 20);
    assert_eq!(chunks.len(), 1);
    assert_eq!(chunks[0], text);
}

#[test]
fn test_split_with_empty_lines() {
    let text = "Line 1\n\nLine 3";
    let chunks = split_text_into_line_chunks(text, 100);
    assert_eq!(chunks.len(), 1);
    assert_eq!(chunks[0], text);
}

#[test]
fn test_split_into_chunks() {
    let text = "Line one is here\nLine two is also here\nLine three continues\nLine four ends";
    let chunks = split_text_into_line_chunks(text, 50);
    assert!(chunks.len() > 1);
    for chunk in &chunks {
        assert!(chunk.len() <= 60);
    }
}

#[test]
fn test_split_text_simple() {
    let text = "Line 1\nLine 2\nLine 3";
    let chunks = split_text_into_chunks(text, 4000);
    assert_eq!(chunks.len(), 1);
    assert_eq!(chunks[0], text);
}

#[test]
fn test_split_text_by_lines() {
    let text = "Line one here\nLine two here\nLine three here";
    let chunks = split_text_into_chunks(text, 20);
    assert!(chunks.len() > 1);
    for chunk in &chunks {
        assert!(chunk.len() <= 30);
    }
}

#[test]
fn line_chunks_rejoin_to_text() {
    let text = "一行目\n二行目です\n\n四行目\n";
    let chunks = split_text_into_line_chunks(text, 8);
    assert_eq!(chunks.join("\n"), "一行目\n二行目です\n\n四行目");
    for c in &chunks {
        assert!(c.chars().count() <= 8 || !c.contains('\n'));
    }
}

#[test]
fn sizes_count_characters() {
    let chunks = split_text_into_line_chunks("あいう\nえお", 6);
    assert_eq!(chunks, vec!["あいう\nえお".to_string()]);
}

#[test]
fn long_line_is_split_on_words() {
    let text = "short\nalpha beta gamma delta epsilon";
    let chunks = split_text_into_chunks(text, 12);
    assert_eq!(chunks, vec!["short", "alpha beta", "gamma delta", "epsilon"]);
}

#[test]
fn oversized_word_stays_whole() {
    let chunks = split_text_into_chunks("a verylongwordindeed b", 5);
    assert_eq!(chunks, vec!["a", "verylongwordindeed", "b"]);
}
