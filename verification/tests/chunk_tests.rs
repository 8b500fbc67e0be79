use agent_hub::chunk::chunk_text;

fn chars(s: &str) -> Vec<char> {
    s.chars().collect()
}

fn join(chunks: &[Vec<char>]) -> String {
    chunks.iter().flat_map(|c| c.iter()).collect()
}

fn byte_len(chunk: &[char]) -> usize {
    chunk.iter().map(|c| c.len_utf8()).sum()
}

#[test]
fn ascii_chunks_at_window_boundaries() {
    // exactly the window, one less, one more
    for (len, expect) in [(8usize, 1usize), (7, 1), (9, 2)] {
        let s: String = "x".repeat(len);
        let chunks = chunk_text(&chars(&s), 8);
        assert_eq!(chunks.len(), expect, "length {len}");
        assert_eq!(join(&chunks), s);
        for c in &chunks {
            assert!(byte_len(c) <= 8);
            assert!(!c.is_empty());
        }
    }
}

#[test]
fn transport_window_boundaries() {
    // lengths exactly at, one under, and one over the relay's 1024-byte window
    for (len, expect) in [(1024usize, 1usize), (1023, 1), (1025, 2)] {
        let s: String = "y".repeat(len);
        let chunks = chunk_text(&chars(&s), 1024);
        assert_eq!(chunks.len(), expect, "length {len}");
        assert_eq!(join(&chunks), s);
    }
}

#[test]
fn empty_text_has_no_chunks() {
    let chunks = chunk_text(&chars(""), 1024);
    assert_eq!(chunks.len(), 0);
}

#[test]
fn multibyte_never_straddles_a_boundary() {
    // 'é' is 2 bytes; with a 4-byte window, "xxxé" cannot fit in one chunk
    let chunks = chunk_text(&chars("xxx\u{e9}xx"), 4);
    assert_eq!(join(&chunks), "xxx\u{e9}xx");
    for c in &chunks {
        assert!(byte_len(c) <= 4);
        let as_string: String = c.iter().collect();
        assert_eq!(as_string.chars().count(), c.len());
    }
    assert_eq!(chunks.len(), 2);
    assert_eq!(chunks[0].iter().collect::<String>(), "xxx");
    assert_eq!(chunks[1].iter().collect::<String>(), "\u{e9}xx");
}

#[test]
fn four_byte_characters_fill_whole_chunks() {
    // each rocket is 4 bytes, so a 4-byte window holds exactly one
    let chunks = chunk_text(&chars("\u{1f680}\u{1f680}\u{1f680}"), 4);
    assert_eq!(chunks.len(), 3);
    assert_eq!(join(&chunks), "\u{1f680}\u{1f680}\u{1f680}");
}

#[test]
fn long_mixed_text_round_trips() {
    let mut s = String::new();
    for i in 0..700 {
        s.push_str(match i % 4 {
            0 => "a",
            1 => "\u{e9}",
            2 => "\u{65e5}",
            _ => "\u{1f680}",
        });
    }
    let chunks = chunk_text(&chars(&s), 1024);
    assert_eq!(join(&chunks), s);
    assert!(chunks.len() >= 2);
    for c in &chunks {
        assert!(byte_len(c) <= 1024);
        assert!(!c.is_empty());
    }
    // each chunk except the last is as full as it can be
    for w in 0..chunks.len() - 1 {
        assert!(byte_len(&chunks[w]) + chunks[w + 1][0].len_utf8() > 1024);
    }
}
