//! Flat text from a marked-up document: its text nodes, joined with one
//! space between each two.

use vstd::prelude::*;
use vstd::string::StringExecFns;
use xml::reader::{EventReader, XmlEvent};

verus! {

/// One event of reading a marked-up document, as far as it may carry text.
pub enum Piece {
    /// Character data between tags: a text node.
    Text(String),
    /// A character-data section, as it is written.
    CData(String),
    /// A run of whitespace between tags.
    Whitespace(String),
    /// A comment.
    Comment(String),
    /// Anything else that is well formed: a tag, a declaration, the end.
    Other,
    /// The document is malformed here; nothing follows.
    Broken,
}

/// Why no text came out of a document.
#[derive(Clone, Copy, Debug, PartialEq, Eq, Structural)]
pub enum MarkupError {
    /// The markup is malformed.
    Malformed,
}

/// The events that the XML reader yields for the bytes `source`, in order.
pub uninterp spec fn markup_pieces(source: Seq<u8>) -> Seq<Piece>;

/// `xml::reader::EventReader` over a byte slice, run to its end: the events
/// depend on the bytes alone. Each event that may carry text comes out as
/// the piece of its kind with its text, an error as `Broken`, every other
/// event as `Other`.
#[verifier::external_body]
fn read_pieces(source: &[u8]) -> (pieces: Vec<Piece>)
    ensures
        pieces@ == markup_pieces(source@),
{
    EventReader::new(source).into_iter().map(
        |event| match event {
            Ok(XmlEvent::Characters(text)) => Piece::Text(text),
            Ok(XmlEvent::CData(text)) => Piece::CData(text),
            Ok(XmlEvent::Whitespace(text)) => Piece::Whitespace(text),
            Ok(XmlEvent::Comment(text)) => Piece::Comment(text),
            Ok(_) => Piece::Other,
            Err(_) => Piece::Broken,
        },
    ).collect()
}

/// Some piece says that the document is malformed.
pub open spec fn is_broken(pieces: Seq<Piece>) -> bool {
    exists|i: int| 0 <= i < pieces.len() && #[trigger] pieces[i] is Broken
}

/// The texts of the text nodes among `pieces`, in order. Character-data
/// sections, whitespace between tags and comments are no text nodes.
pub open spec fn text_nodes(pieces: Seq<Piece>) -> Seq<Seq<char>>
    decreases pieces.len(),
{
    if pieces.len() == 0 {
        Seq::empty()
    } else {
        match pieces.last() {
            Piece::Text(text) => text_nodes(pieces.drop_last()).push(text@),
            _ => text_nodes(pieces.drop_last()),
        }
    }
}

/// `texts` in a row, with one space between each two.
pub open spec fn joined(texts: Seq<Seq<char>>) -> Seq<char>
    decreases texts.len(),
{
    if texts.len() == 0 {
        Seq::empty()
    } else if texts.len() == 1 {
        texts[0]
    } else {
        joined(texts.drop_last()).push(' ') + texts.last()
    }
}

/// The text nodes among `pieces`, joined with one space between each two.
pub open spec fn flat_text(pieces: Seq<Piece>) -> Seq<char> {
    joined(text_nodes(pieces))
}

/// What comes of `pieces`: the flat text, or the error if a piece is broken.
pub open spec fn flattened(pieces: Seq<Piece>, result: Result<String, MarkupError>) -> bool {
    match result {
        Ok(text) => !is_broken(pieces) && text@ == flat_text(pieces),
        Err(error) => is_broken(pieces) && error == MarkupError::Malformed,
    }
}

/// The flat text of a document that was read into `pieces`.
pub fn flatten(pieces: &Vec<Piece>) -> (result: Result<String, MarkupError>)
    ensures
        flattened(pieces@, result),
{
    let mut content = String::new();
    let mut started = false;
    let mut i: usize = 0;
    while i < pieces.len()
        invariant
            i <= pieces@.len(),
            !is_broken(pieces@.take(i as int)),
            started == (text_nodes(pieces@.take(i as int)).len() > 0),
            content@ == flat_text(pieces@.take(i as int)),
        decreases pieces@.len() - i,
    {
        let ghost front = pieces@.take(i as int);
        let ghost next = pieces@.take(i + 1);
        assert(next.drop_last() == front);
        match &pieces[i] {
            Piece::Text(text) => {
                assert(text_nodes(next).drop_last() == text_nodes(front));
                if started {
                    content.push(' ');
                } else {
                    assert(Seq::<char>::empty() + text@ == text@);
                }
                content.append(text.as_str());
                started = true;
            },
            Piece::Broken => {
                assert(pieces@[i as int] is Broken);
                return Err(MarkupError::Malformed);
            },
            _ => {},
        }
        assert(!is_broken(next)) by {
            if is_broken(next) {
                let k = choose|k: int| 0 <= k < next.len() && #[trigger] next[k] is Broken;
                if k < i {
                    assert(front[k] is Broken);
                }
            }
        }
        i += 1;
    }
    assert(pieces@.take(i as int) == pieces@);
    Ok(content)
}

/// The flat text of the marked-up document `source`: its text nodes, joined
/// with one space between each two; an error if the markup is malformed.
pub fn extract_text(source: &[u8]) -> (result: Result<String, MarkupError>)
    ensures
        flattened(markup_pieces(source@), result),
{
    let pieces = read_pieces(source);
    flatten(&pieces)
}

} // verus!
