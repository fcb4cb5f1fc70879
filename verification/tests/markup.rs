use termrank::freq::index_document;
use termrank::markup::{extract_text, flatten, MarkupError, Piece};

#[test]
fn text_nodes_are_joined_with_spaces() {
    let source = b"<?xml version=\"1.0\"?><doc><title>The cat</title><p>sat on <b>the</b> mat</p></doc>";
    assert_eq!(extract_text(source), Ok("The cat sat on  the  mat".to_string()));
    assert_eq!(extract_text(b"<a>one</a>"), Ok("one".to_string()));
    assert_eq!(extract_text(b"<a><b>one</b><b>two</b></a>"), Ok("one two".to_string()));
}

#[test]
fn entities_are_resolved_and_comments_dropped() {
    let source = b"<a>x &lt; y<!-- hidden --> &amp; z</a>";
    let text = extract_text(source).unwrap();
    assert!(text.contains("x < y"));
    assert!(text.contains("& z"));
    assert!(!text.contains("hidden"));
    assert!(text.starts_with('x'));
    assert!(text.ends_with('z'));
}

#[test]
fn document_without_text_gives_empty_text() {
    assert_eq!(extract_text(b"<a><b/>  <c></c></a>"), Ok(String::new()));
}

#[test]
fn malformed_markup_is_an_error() {
    assert_eq!(extract_text(b"<a><b>text</a>"), Err(MarkupError::Malformed));
    assert_eq!(extract_text(b"<a>text"), Err(MarkupError::Malformed));
    assert_eq!(extract_text(b""), Err(MarkupError::Malformed));
    assert_eq!(extract_text(b"no markup at all"), Err(MarkupError::Malformed));
}

#[test]
fn flatten_takes_text_pieces_only() {
    let pieces = vec![
        Piece::Other,
        Piece::Text("one".to_string()),
        Piece::Other,
        Piece::Text("two words".to_string()),
        Piece::CData("data".to_string()),
        Piece::Whitespace("  ".to_string()),
        Piece::Comment("note".to_string()),
        Piece::Text(String::new()),
    ];
    assert_eq!(flatten(&pieces), Ok("one two words ".to_string()));
    assert_eq!(flatten(&vec![Piece::Text("a".to_string())]), Ok("a".to_string()));
    assert_eq!(
        flatten(&vec![Piece::Text("a".to_string()), Piece::Text("b".to_string())]),
        Ok("a b".to_string())
    );
    assert_eq!(flatten(&vec![]), Ok(String::new()));
    assert_eq!(flatten(&vec![Piece::Other, Piece::Other]), Ok(String::new()));
}

#[test]
fn only_character_data_between_tags_is_text() {
    assert_eq!(extract_text(b"<a><![CDATA[raw]]><b>y</b>\n  <c/></a>"), Ok("y".to_string()));
    assert_eq!(extract_text(b"<a href=\"attribute\">t</a>"), Ok("t".to_string()));
}

#[test]
fn flatten_fails_on_broken_piece() {
    let pieces = vec![Piece::Text("one".to_string()), Piece::Broken];
    assert_eq!(flatten(&pieces), Err(MarkupError::Malformed));
    assert_eq!(flatten(&vec![Piece::Broken]), Err(MarkupError::Malformed));
}

#[test]
fn extracted_text_is_indexed() {
    let text = extract_text(b"<d><h>Cats</h><p>cats and dogs, 2 cats</p></d>").unwrap();
    let table = index_document(&text);
    assert_eq!(table.count("CATS"), 3);
    assert_eq!(table.count("DOGS"), 1);
    assert_eq!(table.count(","), 1);
    assert_eq!(table.count("2"), 1);
    assert_eq!(table.total(), 7);
}
