//! Writing events as XML text: compact, with no whitespace between tags.

use crate::ser::{document_events, to_events};
use crate::strings::chars_of;
use crate::tree::{events_model, EventModel, XmlEvent};
use crate::error::Error;
use crate::value::{Value, ValueModel};
use vstd::prelude::*;
use vstd::string::StringExecFns;

verus! {

/// The XML declaration that every document begins with.
pub open spec fn declaration() -> Seq<char> {
    "<?xml version=\"1.0\" encoding=\"UTF-8\"?>"@
}

/// How one character of text is written: the five characters that XML
/// reserves as their entities, any other as itself.
pub open spec fn escape_char(c: char) -> Seq<char> {
    if c == '&' {
        seq!['&', 'a', 'm', 'p', ';']
    } else if c == '<' {
        seq!['&', 'l', 't', ';']
    } else if c == '>' {
        seq!['&', 'g', 't', ';']
    } else if c == '\'' {
        seq!['&', 'a', 'p', 'o', 's', ';']
    } else if c == '"' {
        seq!['&', 'q', 'u', 'o', 't', ';']
    } else {
        seq![c]
    }
}

/// How a run of text is written.
pub open spec fn escape(text: Seq<char>) -> Seq<char>
    decreases text.len(),
{
    if text.len() == 0 {
        Seq::empty()
    } else {
        escape(text.drop_last()) + escape_char(text.last())
    }
}

/// A start tag.
pub open spec fn start_tag_text(name: Seq<char>) -> Seq<char> {
    seq!['<'] + name + seq!['>']
}

/// An end tag.
pub open spec fn end_tag_text(name: Seq<char>) -> Seq<char> {
    seq!['<', '/'] + name + seq!['>']
}

/// The tag of an element without content, with a space before the slash.
pub open spec fn empty_tag_text(name: Seq<char>) -> Seq<char> {
    seq!['<'] + name + seq![' ', '/', '>']
}

/// Whether the event at `from` opens an element that the next event
/// closes at once.
pub open spec fn is_empty_element(events: Seq<EventModel>, from: int) -> bool {
    &&& 0 <= from
    &&& from + 1 < events.len()
    &&& events[from] is StartElement
    &&& events[from + 1] == (EventModel::EndElement { name: events[from]->StartElement_name })
}

/// The text of the events from `events[from]` on. An element without
/// content is written as one tag.
pub open spec fn render_from(events: Seq<EventModel>, from: int) -> Seq<char>
    decreases events.len() - from,
{
    if from < 0 || from >= events.len() {
        Seq::empty()
    } else {
        match events[from] {
            EventModel::StartDocument => declaration() + render_from(events, from + 1),
            EventModel::StartElement { name } => if is_empty_element(events, from) {
                empty_tag_text(name) + render_from(events, from + 2)
            } else {
                start_tag_text(name) + render_from(events, from + 1)
            },
            EventModel::EndElement { name } => end_tag_text(name) + render_from(events, from + 1),
            EventModel::Characters(text) => escape(text) + render_from(events, from + 1),
        }
    }
}

/// The text of a sequence of events.
pub open spec fn render(events: Seq<EventModel>) -> Seq<char> {
    render_from(events, 0)
}

/// Appends a run of text, with the reserved characters as entities.
pub fn write_escaped(out: &mut String, text: &str)
    ensures
        final(out)@ == old(out)@ + escape(text@),
{
    let t = chars_of(text);
    let mut i: usize = 0;
    proof {
        assert(t@.take(0) =~= Seq::<char>::empty());
        assert(out@ =~= old(out)@ + escape(t@.take(0)));
    }
    while i < t.len()
        invariant
            i <= t.len(),
            t@ == text@,
            out@ == old(out)@ + escape(t@.take(i as int)),
        decreases t.len() - i,
    {
        let c = t[i];
        let ghost before = out@;
        proof {
            assert(t@.take(i + 1).drop_last() =~= t@.take(i as int));
            assert(t@.take(i + 1).last() == c);
        }
        if c == '&' {
            out.push('&');
            out.push('a');
            out.push('m');
            out.push('p');
            out.push(';');
        } else if c == '<' {
            out.push('&');
            out.push('l');
            out.push('t');
            out.push(';');
        } else if c == '>' {
            out.push('&');
            out.push('g');
            out.push('t');
            out.push(';');
        } else if c == '\'' {
            out.push('&');
            out.push('a');
            out.push('p');
            out.push('o');
            out.push('s');
            out.push(';');
        } else if c == '"' {
            out.push('&');
            out.push('q');
            out.push('u');
            out.push('o');
            out.push('t');
            out.push(';');
        } else {
            out.push(c);
        }
        proof {
            assert(out@ =~= before + escape_char(c));
            assert(out@ =~= old(out)@ + escape(t@.take(i + 1)));
        }
        i += 1;
    }
    proof {
        assert(t@.take(t.len() as int) =~= t@);
    }
}

/// Writes events as XML text.
pub fn write_events(events: &Vec<XmlEvent>) -> (r: String)
    ensures
        r@ == render(events_model(events@)),
{
    let ghost model = events_model(events@);
    let mut out = String::new();
    let mut i: usize = 0;
    proof {
        assert(out@ + render_from(model, 0) =~= render(model));
    }
    while i < events.len()
        invariant
            i <= events.len(),
            model == events_model(events@),
            render(model) == out@ + render_from(model, i as int),
        decreases events.len() - i,
    {
        let ghost before = out@;
        assert(model[i as int] == events[i as int]@);
        match &events[i] {
            XmlEvent::StartDocument => {
                out.append("<?xml version=\"1.0\" encoding=\"UTF-8\"?>");
                proof {
                    assert(before + (declaration() + render_from(model, i + 1)) =~= out@
                        + render_from(model, i + 1));
                }
                i += 1;
            },
            XmlEvent::StartElement { name } => {
                let closed_at_once = if i + 1 < events.len() {
                    assert(model[i + 1] == events[i + 1]@);
                    match &events[i + 1] {
                        XmlEvent::EndElement { name: closing } => *closing == *name,
                        _ => false,
                    }
                } else {
                    false
                };
                assert(closed_at_once == is_empty_element(model, i as int));
                out.push('<');
                out.append(name.as_str());
                if closed_at_once {
                    out.push(' ');
                    out.push('/');
                    out.push('>');
                    proof {
                        assert(out@ =~= before + empty_tag_text(name@));
                        assert(before + (empty_tag_text(name@) + render_from(model, i + 2))
                            =~= out@ + render_from(model, i + 2));
                    }
                    i += 2;
                } else {
                    out.push('>');
                    proof {
                        assert(out@ =~= before + start_tag_text(name@));
                        assert(before + (start_tag_text(name@) + render_from(model, i + 1))
                            =~= out@ + render_from(model, i + 1));
                    }
                    i += 1;
                }
            },
            XmlEvent::EndElement { name } => {
                out.push('<');
                out.push('/');
                out.append(name.as_str());
                out.push('>');
                proof {
                    assert(out@ =~= before + end_tag_text(name@));
                    assert(before + (end_tag_text(name@) + render_from(model, i + 1)) =~= out@
                        + render_from(model, i + 1));
                }
                i += 1;
            },
            XmlEvent::Characters(text) => {
                write_escaped(&mut out, text.as_str());
                proof {
                    assert(before + (escape(text@) + render_from(model, i + 1)) =~= out@
                        + render_from(model, i + 1));
                }
                i += 1;
            },
        }
    }
    proof {
        assert(out@ + render_from(model, events.len() as int) =~= out@);
    }
    out
}

/// Whether a value can be the root of a document: a struct or a variant,
/// which is written as exactly one element.
pub open spec fn is_root(v: ValueModel) -> bool
    decreases v,
{
    match v {
        ValueModel::Struct { .. } => true,
        ValueModel::Variant { .. } => true,
        ValueModel::Optional(Some(inner)) => is_root(*inner),
        _ => false,
    }
}

/// Whether a value can be the root of a document.
pub fn can_be_root(v: &Value) -> (r: bool)
    ensures
        r == is_root(v@),
    decreases v,
{
    match v {
        Value::Struct { .. } => true,
        Value::Variant { .. } => true,
        Value::Optional(Some(inner)) => can_be_root(inner),
        _ => false,
    }
}

/// Writes a value as an XML document: the declaration, then the value as
/// the root element. A value that is no element cannot be a document.
pub fn to_string(v: &Value) -> (r: Result<String, Error>)
    ensures
        match r {
            Ok(text) => is_root(v@) && text@ == render(document_events(v@)),
            Err(e) => e == Error::TypeMismatch && !is_root(v@),
        },
{
    if !can_be_root(v) {
        return Err(Error::TypeMismatch);
    }
    let events = to_events(v);
    Ok(write_events(&events))
}

} // verus!
