//! Text extraction from markup documents: the character data of an XML
//! document, each piece followed by a space.

use vstd::prelude::*;

verus! {

/// The events that xml-rs reads from `bytes`: `Some(text)` for each piece of
/// character data, `None` for every other event; `None` as a whole where the
/// reader reports an error.
pub uninterp spec fn markup_events(bytes: Seq<u8>) -> Option<Seq<Option<Seq<char>>>>;

/// Relies on `xml::reader::EventReader` (xml-rs) and its event iterator,
/// which ends after the end of the document or after the first error. What
/// it yields depends on the bytes alone.
#[verifier::external_body]
fn parse_markup(bytes: &[u8]) -> (r: Option<Vec<Option<Vec<char>>>>)
    ensures
        r is None <==> markup_events(bytes@) is None,
        r matches Some(v) ==> markup_events(bytes@) == Some(v.deep_view()),
{
    let mut events = Vec::new();
    for event in xml::reader::EventReader::new(bytes) {
        match event {
            Ok(xml::reader::XmlEvent::Characters(text)) => events.push(Some(text.chars().collect())),
            Ok(_) => events.push(None),
            Err(_) => return None,
        }
    }
    Some(events)
}

/// The character data of a sequence of events, each piece followed by a space.
pub open spec fn joined_text(events: Seq<Option<Seq<char>>>) -> Seq<char>
    decreases events.len(),
{
    if events.len() == 0 {
        seq![]
    } else {
        joined_text(events.drop_last()) + match events.last() {
            Some(t) => t + seq![' '],
            None => seq![],
        }
    }
}

/// The text of a document whose bytes are `bytes`, where they parse.
pub open spec fn extracted(bytes: Seq<u8>) -> Option<Seq<char>> {
    match markup_events(bytes) {
        Some(events) => Some(joined_text(events)),
        None => None,
    }
}

/// The character data of `events`, each piece followed by a space.
pub fn join_text(events: &Vec<Option<Vec<char>>>) -> (r: Vec<char>)
    ensures
        r@ == joined_text(events.deep_view()),
{
    let ghost evs = events.deep_view();
    let mut r: Vec<char> = Vec::new();
    let mut i: usize = 0;
    while i < events.len()
        invariant
            evs == events.deep_view(),
            i <= events@.len(),
            r@ == joined_text(evs.take(i as int)),
        decreases events@.len() - i,
    {
        assert(evs.take(i + 1).drop_last() =~= evs.take(i as int));
        assert(evs[i as int] == events@[i as int].deep_view());
        match &events[i] {
            Some(text) => {
                let mut j: usize = 0;
                let ghost start = r@;
                while j < text.len()
                    invariant
                        j <= text@.len(),
                        r@ == start + text@.take(j as int),
                    decreases text@.len() - j,
                {
                    r.push(text[j]);
                    j = j + 1;
                    assert(r@ =~= start + text@.take(j as int));
                }
                r.push(' ');
                assert(r@ =~= start + (text@ + seq![' ']));
            },
            None => {
                assert(r@ =~= r@ + Seq::<char>::empty());
            },
        }
        i = i + 1;
    }
    assert(evs.take(i as int) =~= evs);
    r
}

/// The text of an XML document: its character data, each piece followed by a
/// space; `None` where the document does not parse.
pub fn extract_text(bytes: &[u8]) -> (r: Option<Vec<char>>)
    ensures
        r.deep_view() == extracted(bytes@),
{
    match parse_markup(bytes) {
        Some(events) => Some(join_text(&events)),
        None => None,
    }
}

} // verus!
