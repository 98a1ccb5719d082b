use lawgraph::chunker::{chunk_text, split_sentences};
use lawgraph::text::approx_token_count;

#[test]
fn test_short_text_no_chunking() {
    let text = b"This is short.".to_vec();
    let chunks = chunk_text(&text, 500, 50);
    assert_eq!(chunks.len(), 1);
    assert_eq!(chunks[0].text, text);
    assert_eq!(chunks[0].char_start, 0);
    assert_eq!(chunks[0].char_end, text.len());
}

#[test]
fn test_long_text_chunks() {
    let mut sentences: Vec<String> = Vec::new();
    for i in 0..100 {
        sentences.push(format!("This is sentence number {} with some filler words.", i));
    }
    let text = sentences.join(" ").into_bytes();
    let chunks = chunk_text(&text, 50, 10);
    assert!(chunks.len() >= 2);
}

#[test]
fn test_overlap_present() {
    let mut sentences: Vec<String> = Vec::new();
    for i in 0..20 {
        sentences.push(format!("Sentence number {} has some content.", i));
    }
    let text = sentences.join(" ").into_bytes();
    let chunks = chunk_text(&text, 30, 10);
    assert!(chunks.len() >= 2);
}

#[test]
fn test_chunk_offsets_cover_text() {
    let text = b"First sentence. Second sentence. Third sentence.".to_vec();
    let chunks = chunk_text(&text, 3, 1);
    for chunk in &chunks {
        assert!(chunk.char_start <= chunk.char_end);
        assert!(chunk.char_end <= text.len());
    }
}

#[test]
fn test_sentence_split_offsets() {
    let text = b"Hello world. Goodbye world.".to_vec();
    let sentences = split_sentences(&text);
    assert_eq!(sentences.len(), 2);
    assert_eq!(sentences[0].text, b"Hello world.".to_vec());
    assert_eq!(sentences[0].byte_start, 0);
    assert_eq!(sentences[0].byte_end, 12);
    assert_eq!(sentences[1].text, b"Goodbye world.".to_vec());
    assert_eq!(
        &text[sentences[1].byte_start..sentences[1].byte_end],
        b"Goodbye world."
    );
}

#[test]
fn test_token_count() {
    assert_eq!(approx_token_count(&b"two words".to_vec()), 2);
    assert_eq!(approx_token_count(&b"".to_vec()), 0);
    assert_eq!(approx_token_count(&b"   ".to_vec()), 0);
    assert_eq!(approx_token_count(&b"  a  b   c ".to_vec()), 3);
}

#[test]
fn test_empty_text_single_span() {
    let text: Vec<u8> = Vec::new();
    let chunks = chunk_text(&text, 500, 50);
    assert_eq!(chunks.len(), 1);
    assert!(chunks[0].text.is_empty());
    assert_eq!(chunks[0].char_start, 0);
    assert_eq!(chunks[0].char_end, 0);
}

#[test]
fn test_single_chunk_is_verbatim_substring() {
    let text = b"One sentence here. And a second one.".to_vec();
    let chunks = chunk_text(&text, 500, 50);
    assert_eq!(chunks.len(), 1);
    assert_eq!(
        chunks[0].text,
        text[chunks[0].char_start..chunks[0].char_end].to_vec()
    );
}

#[test]
fn test_force_split_windows() {
    // Twenty single-letter words without terminal punctuation force the
    // word-window path: windows of five words with one word of overlap.
    let mut words: Vec<String> = Vec::new();
    for i in 0..20 {
        let letter = (b'a' + (i % 26) as u8) as char;
        words.push(letter.to_string());
    }
    let text = words.join(" ").into_bytes();
    let chunks = chunk_text(&text, 5, 1);
    assert_eq!(chunks.len(), 5);
    // Window k starts at word 4k: each word takes two bytes of stride.
    assert_eq!(chunks[0].char_start, 0);
    assert_eq!(chunks[1].char_start, 8);
    assert_eq!(chunks[2].char_start, 16);
    for chunk in &chunks {
        assert_eq!(
            chunk.text,
            text[chunk.char_start..chunk.char_end].to_vec()
        );
    }
    assert_eq!(chunks[4].char_end, text.len());
}

#[test]
fn test_chunk_overlap_seeds_previous_tail() {
    // Four sentences of three tokens each with a budget of six tokens and an
    // overlap budget of three: the second chunk begins with the last
    // sentence of the first.
    let text = b"aa bb cc. dd ee ff. gg hh ii. jj kk ll.".to_vec();
    let chunks = chunk_text(&text, 6, 3);
    assert_eq!(chunks.len(), 3);
    assert_eq!(chunks[0].text, b"aa bb cc. dd ee ff.".to_vec());
    assert_eq!(chunks[1].text, b"dd ee ff. gg hh ii.".to_vec());
    assert_eq!(chunks[2].text, b"gg hh ii. jj kk ll.".to_vec());
}
