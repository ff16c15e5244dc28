use bulk_translate::{bulk_from_reply, chunk_lines, join_lines, wrap_paragraphs};

fn lines(texts: &[&str]) -> Vec<String> {
    texts.iter().map(|t| t.to_string()).collect()
}

#[test]
fn chunks_are_full_but_the_last() {
    let chunks = chunk_lines(lines(&["1", "2", "3", "4", "5"]), 2);
    let numbers: Vec<i32> = chunks.iter().map(|c| c.number).collect();
    assert_eq!(numbers, vec![1, 2, 3]);
    assert_eq!(chunks[0].lines, lines(&["1", "2"]));
    assert_eq!(chunks[1].lines, lines(&["3", "4"]));
    assert_eq!(chunks[2].lines, lines(&["5"]));
}

#[test]
fn chunks_of_exact_multiple() {
    let chunks = chunk_lines(lines(&["1", "2", "3", "4"]), 2);
    assert_eq!(chunks.len(), 2);
    assert_eq!(chunks[1].lines, lines(&["3", "4"]));
}

#[test]
fn chunk_larger_than_input() {
    let chunks = chunk_lines(lines(&["1", "2"]), 10);
    assert_eq!(chunks.len(), 1);
    assert_eq!(chunks[0].number, 1);
    assert_eq!(chunks[0].lines, lines(&["1", "2"]));
}

#[test]
fn no_lines_no_chunks() {
    assert!(chunk_lines(Vec::new(), 3).is_empty());
}

#[test]
fn paragraphs_are_wrapped_in_markers() {
    let wrapped = wrap_paragraphs(&lines(&["Hello", ""]));
    assert_eq!(wrapped, lines(&["<paragraph>Hello</paragraph>", "<paragraph></paragraph>"]));
}

#[test]
fn sentences_are_joined_by_newlines() {
    assert_eq!(join_lines(&lines(&["One.", "Two.", "Three."])), "One.\nTwo.\nThree.");
    assert_eq!(join_lines(&lines(&["Alone"])), "Alone");
    assert_eq!(join_lines(&Vec::new()), "");
}

#[test]
fn reply_paragraphs_become_translated_lines() {
    let reply = vec![lines(&["Un.", "Deux."]), lines(&["Trois."])];
    let r = bulk_from_reply(4, lines(&["a", "b"]), Some(reply), 99u8);
    assert_eq!(r.number, 4);
    assert_eq!(r.original_lines, lines(&["a", "b"]));
    assert_eq!(r.translated_lines, lines(&["Un.\nDeux.", "Trois."]));
    assert_eq!(r.stats, 99);
}

#[test]
fn unreadable_reply_gives_no_lines() {
    let r = bulk_from_reply(2, lines(&["a", "b"]), None, ());
    assert_eq!(r.number, 2);
    assert_eq!(r.original_lines, lines(&["a", "b"]));
    assert!(r.translated_lines.is_empty());
}
