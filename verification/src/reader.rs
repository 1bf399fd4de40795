//! Reading XML text as events.
//!
//! The reader takes the subset of XML that the writer produces, and a
//! little more: an optional declaration, one root element, elements
//! without attributes, text with the five predefined entities, and
//! whitespace between tags. Anything else is malformed.

use crate::de::rules::decode_events;
use crate::de::{from_events, value_read};
use crate::error::Error;
use crate::ser::names_model;
use crate::shape::Shape;
use crate::strings::{chars_of, string_of};
use crate::tree::{events_model, EventModel, XmlEvent};
use crate::value::{Value, ValueModel};
use vstd::prelude::*;

verus! {

/// How runs of text are handed on.
#[derive(Clone, Copy, Debug, PartialEq, Eq, Structural)]
pub struct ParserConfig {
    /// Whitespace at the two ends of a run of text is removed, and a run
    /// of nothing but whitespace is dropped.
    pub trim_whitespace: bool,
    /// A run of nothing but whitespace is handed on as text. Otherwise it
    /// is insignificant and dropped.
    pub whitespace_to_characters: bool,
}

impl ParserConfig {
    /// The configuration that keeps text as it is and drops runs of
    /// nothing but whitespace.
    pub fn new() -> (r: Self)
        ensures
            r == (ParserConfig { trim_whitespace: false, whitespace_to_characters: false }),
    {
        ParserConfig { trim_whitespace: false, whitespace_to_characters: false }
    }

    /// The same configuration, but for the trimming of whitespace.
    pub fn trim_whitespace(self, value: bool) -> (r: Self)
        ensures
            r == (ParserConfig { trim_whitespace: value, ..self }),
    {
        ParserConfig { trim_whitespace: value, whitespace_to_characters: self.whitespace_to_characters }
    }

    /// The same configuration, but for what becomes of runs of nothing
    /// but whitespace.
    pub fn whitespace_to_characters(self, value: bool) -> (r: Self)
        ensures
            r == (ParserConfig { whitespace_to_characters: value, ..self }),
    {
        ParserConfig { trim_whitespace: self.trim_whitespace, whitespace_to_characters: value }
    }
}

/// Whether `c` is XML whitespace.
pub open spec fn is_space(c: char) -> bool {
    c == ' ' || c == '\t' || c == '\n' || c == '\r'
}

/// Whether a name can begin with `c`: a letter, an underscore, a colon, or
/// any character beyond ASCII.
pub open spec fn is_name_start(c: char) -> bool {
    let u = c as u32;
    (0x41 <= u <= 0x5a) || (0x61 <= u <= 0x7a) || c == '_' || c == ':' || u >= 0x80
}

/// Whether a name can go on with `c`: what it can begin with, a digit, a
/// hyphen or a full stop.
pub open spec fn is_name_char(c: char) -> bool {
    let u = c as u32;
    is_name_start(c) || (0x30 <= u <= 0x39) || c == '-' || c == '.'
}

/// The first position at or after `pos` that holds no whitespace.
pub open spec fn skip_spaces(text: Seq<char>, pos: int) -> int
    decreases text.len() - pos,
{
    if 0 <= pos < text.len() && is_space(text[pos]) {
        skip_spaces(text, pos + 1)
    } else {
        pos
    }
}

/// The first position at or after `pos` that holds no character of a
/// name.
pub open spec fn name_end(text: Seq<char>, pos: int) -> int
    decreases text.len() - pos,
{
    if 0 <= pos < text.len() && is_name_char(text[pos]) {
        name_end(text, pos + 1)
    } else {
        pos
    }
}

/// The first position at or after `pos` that holds `<`, or the end.
pub open spec fn run_end(text: Seq<char>, pos: int) -> int
    decreases text.len() - pos,
{
    if 0 <= pos < text.len() && text[pos] != '<' {
        run_end(text, pos + 1)
    } else {
        pos
    }
}

/// The first position at or after `pos` that holds `?>`, or the end.
pub open spec fn declaration_end(text: Seq<char>, pos: int) -> int
    decreases text.len() - pos,
{
    if 0 <= pos < text.len() && !(text[pos] == '?' && pos + 1 < text.len() && text[pos + 1]
        == '>') {
        declaration_end(text, pos + 1)
    } else {
        pos
    }
}

/// Whether `<?xml` stands at `pos`.
pub open spec fn is_declaration_start(text: Seq<char>, pos: int) -> bool {
    &&& 0 <= pos
    &&& pos + 5 <= text.len()
    &&& text[pos] == '<'
    &&& text[pos + 1] == '?'
    &&& text[pos + 2] == 'x'
    &&& text[pos + 3] == 'm'
    &&& text[pos + 4] == 'l'
}

/// Whether `pattern` stands at `pos`, before `end`.
pub open spec fn has_at(text: Seq<char>, pos: int, end: int, pattern: Seq<char>) -> bool {
    &&& 0 <= pos
    &&& pos + pattern.len() <= end <= text.len()
    &&& text.subrange(pos, pos + pattern.len()) == pattern
}

/// The entity that stands at `pos`: the character it denotes, and its
/// length.
pub open spec fn entity_at(text: Seq<char>, pos: int, end: int) -> Option<(char, int)> {
    if has_at(text, pos, end, seq!['&', 'a', 'm', 'p', ';']) {
        Some(('&', 5))
    } else if has_at(text, pos, end, seq!['&', 'l', 't', ';']) {
        Some(('<', 4))
    } else if has_at(text, pos, end, seq!['&', 'g', 't', ';']) {
        Some(('>', 4))
    } else if has_at(text, pos, end, seq!['&', 'a', 'p', 'o', 's', ';']) {
        Some(('\'', 6))
    } else if has_at(text, pos, end, seq!['&', 'q', 'u', 'o', 't', ';']) {
        Some(('"', 6))
    } else {
        None
    }
}

/// The text that `text[pos..end]` denotes, with each entity resolved.
/// `None` where an ampersand begins none of the five entities.
pub open spec fn unescape(text: Seq<char>, pos: int, end: int) -> Option<Seq<char>>
    decreases end - pos,
{
    if pos < 0 || pos >= end || end > text.len() {
        Some(Seq::empty())
    } else if text[pos] == '&' {
        match entity_at(text, pos, end) {
            None => None,
            Some((c, n)) => if n <= 0 {
                None
            } else {
                match unescape(text, pos + n, end) {
                    None => None,
                    Some(rest) => Some(seq![c] + rest),
                }
            },
        }
    } else {
        match unescape(text, pos + 1, end) {
            None => None,
            Some(rest) => Some(seq![text[pos]] + rest),
        }
    }
}

/// The position behind the last character of `t[..end]` that is no
/// whitespace.
pub open spec fn trim_end_at(t: Seq<char>, end: int) -> int
    decreases end,
{
    if 0 < end <= t.len() && is_space(t[end - 1]) {
        trim_end_at(t, end - 1)
    } else {
        end
    }
}

/// `t` without the whitespace at its two ends.
pub open spec fn trim(t: Seq<char>) -> Seq<char> {
    let a = skip_spaces(t, 0);
    let b = trim_end_at(t, t.len() as int);
    if a >= b {
        Seq::empty()
    } else {
        t.subrange(a, b)
    }
}

/// Whether `t` holds nothing but whitespace.
pub open spec fn is_blank(t: Seq<char>) -> bool {
    skip_spaces(t, 0) >= t.len()
}

/// What becomes of a run of text inside an element: the text that is
/// handed on, or `None` where the run is dropped.
pub open spec fn normalize(t: Seq<char>, config: ParserConfig) -> Option<Seq<char>> {
    if is_blank(t) {
        if config.trim_whitespace || !config.whitespace_to_characters {
            None
        } else {
            Some(t)
        }
    } else if config.trim_whitespace {
        Some(trim(t))
    } else {
        Some(t)
    }
}

/// One step of the reader: the events it gives, where it goes on, and
/// which elements are open behind it.
pub ghost struct Step {
    pub events: Seq<EventModel>,
    pub next: int,
    pub open: Seq<Seq<char>>,
    pub seen_root: bool,
}

/// The step over an end tag, which begins at `pos`.
pub open spec fn scan_end_tag(text: Seq<char>, pos: int, open: Seq<Seq<char>>) -> Result<
    Step,
    Error,
> {
    let start = pos + 2;
    let stop = name_end(text, start);
    let name = text.subrange(start, stop);
    let close = skip_spaces(text, stop);
    if close >= text.len() {
        Err(Error::UnexpectedEof)
    } else if stop == start || !is_name_start(text[start]) || text[close] != '>' {
        Err(Error::MalformedXml)
    } else if open.len() == 0 || open.last() != name {
        Err(Error::MalformedXml)
    } else {
        Ok(
            Step {
                events: seq![EventModel::EndElement { name }],
                next: close + 1,
                open: open.drop_last(),
                seen_root: true,
            },
        )
    }
}

/// The step over a start tag or the tag of an empty element, which
/// begins at `pos`.
pub open spec fn scan_start_tag(
    text: Seq<char>,
    pos: int,
    open: Seq<Seq<char>>,
    seen_root: bool,
) -> Result<Step, Error> {
    let start = pos + 1;
    let stop = name_end(text, start);
    let name = text.subrange(start, stop);
    let close = skip_spaces(text, stop);
    if close >= text.len() {
        Err(Error::UnexpectedEof)
    } else if stop == start || !is_name_start(text[start]) {
        Err(Error::MalformedXml)
    } else if open.len() == 0 && seen_root {
        Err(Error::MalformedXml)
    } else if text[close] == '>' {
        Ok(
            Step {
                events: seq![EventModel::StartElement { name }],
                next: close + 1,
                open: open.push(name),
                seen_root: true,
            },
        )
    } else if text[close] == '/' {
        if close + 1 >= text.len() {
            Err(Error::UnexpectedEof)
        } else if text[close + 1] == '>' {
            Ok(
                Step {
                    events: seq![
                        EventModel::StartElement { name },
                        EventModel::EndElement { name },
                    ],
                    next: close + 2,
                    open,
                    seen_root: true,
                },
            )
        } else {
            Err(Error::MalformedXml)
        }
    } else {
        Err(Error::MalformedXml)
    }
}

/// The step over a run of text, which begins at `pos`. Outside the root
/// element only whitespace may stand, and it is dropped.
pub open spec fn scan_text(
    text: Seq<char>,
    pos: int,
    open: Seq<Seq<char>>,
    seen_root: bool,
    config: ParserConfig,
) -> Result<Step, Error> {
    let end = run_end(text, pos);
    match unescape(text, pos, end) {
        None => Err(Error::MalformedXml),
        Some(t) => if open.len() == 0 {
            if is_blank(t) {
                Ok(Step { events: Seq::empty(), next: end, open, seen_root })
            } else {
                Err(Error::MalformedXml)
            }
        } else {
            match normalize(t, config) {
                None => Ok(Step { events: Seq::empty(), next: end, open, seen_root }),
                Some(n) => Ok(
                    Step { events: seq![EventModel::Characters(n)], next: end, open, seen_root },
                ),
            }
        },
    }
}

/// The step at `pos`.
pub open spec fn scan_step(
    text: Seq<char>,
    pos: int,
    open: Seq<Seq<char>>,
    seen_root: bool,
    config: ParserConfig,
) -> Result<Step, Error> {
    if 0 <= pos < text.len() && text[pos] == '<' {
        if pos + 1 < text.len() && text[pos + 1] == '/' {
            scan_end_tag(text, pos, open)
        } else {
            scan_start_tag(text, pos, open, seen_root)
        }
    } else {
        scan_text(text, pos, open, seen_root, config)
    }
}

/// The events of `text[pos..]`, read with the elements `open` open.
///
/// Fails with `UnexpectedEof` where the text ends inside a tag, inside an
/// element or before any root element, and with `MalformedXml` where it
/// leaves the supported subset.
pub open spec fn scan(
    text: Seq<char>,
    pos: int,
    open: Seq<Seq<char>>,
    seen_root: bool,
    config: ParserConfig,
) -> Result<Seq<EventModel>, Error>
    decreases text.len() - pos,
{
    if pos < 0 || pos >= text.len() {
        if open.len() > 0 || !seen_root {
            Err(Error::UnexpectedEof)
        } else {
            Ok(Seq::empty())
        }
    } else {
        match scan_step(text, pos, open, seen_root, config) {
            Err(e) => Err(e),
            Ok(step) => if step.next <= pos || step.next > text.len() {
                Err(Error::MalformedXml)
            } else {
                match scan(text, step.next, step.open, step.seen_root, config) {
                    Err(e) => Err(e),
                    Ok(rest) => Ok(step.events + rest),
                }
            },
        }
    }
}

/// Where the root element and what surrounds it begin: behind leading
/// whitespace and the declaration, if there is one. `None` where a
/// declaration begins and does not end.
pub open spec fn prolog_end(text: Seq<char>) -> Option<int> {
    let p = skip_spaces(text, 0);
    if is_declaration_start(text, p) {
        let q = declaration_end(text, p + 5);
        if q >= text.len() {
            None
        } else {
            Some(q + 2)
        }
    } else {
        Some(p)
    }
}

/// The events of a document given as text: a document start, then the
/// events of the root element.
pub open spec fn tokenize(text: Seq<char>, config: ParserConfig) -> Result<Seq<EventModel>, Error> {
    match prolog_end(text) {
        None => Err(Error::UnexpectedEof),
        Some(p) => match scan(text, p, Seq::empty(), false, config) {
            Err(e) => Err(e),
            Ok(events) => Ok(seq![EventModel::StartDocument] + events),
        },
    }
}

/// The value that `shape` finds in a document given as text.
pub open spec fn decode_text(
    shape: crate::shape::ShapeModel,
    text: Seq<char>,
    config: ParserConfig,
    strict: bool,
) -> Result<ValueModel, Error> {
    match tokenize(text, config) {
        Err(e) => Err(e),
        Ok(events) => decode_events(shape, events, strict),
    }
}

/// The events `acc`, followed by what a reading of the rest gave.
pub open spec fn extend_events(acc: Seq<EventModel>, r: Result<Seq<EventModel>, Error>) -> Result<
    Seq<EventModel>,
    Error,
> {
    match r {
        Err(e) => Err(e),
        Ok(rest) => Ok(acc + rest),
    }
}

/// The text `acc`, followed by what the rest of a run denotes.
pub open spec fn extend_text(acc: Seq<char>, r: Option<Seq<char>>) -> Option<Seq<char>> {
    match r {
        None => None,
        Some(rest) => Some(acc + rest),
    }
}

/// Whether the events that were read are what the rules describe.
pub open spec fn events_read(
    r: Result<Vec<XmlEvent>, Error>,
    expected: Result<Seq<EventModel>, Error>,
) -> bool {
    match r {
        Ok(events) => expected == Ok::<Seq<EventModel>, Error>(events_model(events@)),
        Err(e) => expected == Err::<Seq<EventModel>, Error>(e),
    }
}

fn space(c: char) -> (r: bool)
    ensures
        r == is_space(c),
{
    c == ' ' || c == '\t' || c == '\n' || c == '\r'
}

pub(crate) fn name_start(c: char) -> (r: bool)
    ensures
        r == is_name_start(c),
{
    let u = c as u32;
    (0x41 <= u && u <= 0x5a) || (0x61 <= u && u <= 0x7a) || c == '_' || c == ':' || u >= 0x80
}

pub(crate) fn name_char(c: char) -> (r: bool)
    ensures
        r == is_name_char(c),
{
    let u = c as u32;
    name_start(c) || (0x30 <= u && u <= 0x39) || c == '-' || c == '.'
}

fn after_spaces(t: &Vec<char>, pos: usize) -> (r: usize)
    requires
        pos <= t.len(),
    ensures
        r == skip_spaces(t@, pos as int),
        pos <= r <= t.len(),
{
    let mut i: usize = pos;
    while i < t.len() && space(t[i])
        invariant
            pos <= i <= t.len(),
            skip_spaces(t@, pos as int) == skip_spaces(t@, i as int),
        decreases t.len() - i,
    {
        i += 1;
    }
    i
}

fn after_name(t: &Vec<char>, pos: usize) -> (r: usize)
    requires
        pos <= t.len(),
    ensures
        r == name_end(t@, pos as int),
        pos <= r <= t.len(),
{
    let mut i: usize = pos;
    while i < t.len() && name_char(t[i])
        invariant
            pos <= i <= t.len(),
            name_end(t@, pos as int) == name_end(t@, i as int),
        decreases t.len() - i,
    {
        i += 1;
    }
    i
}

fn after_run(t: &Vec<char>, pos: usize) -> (r: usize)
    requires
        pos <= t.len(),
    ensures
        r == run_end(t@, pos as int),
        pos <= r <= t.len(),
{
    let mut i: usize = pos;
    while i < t.len() && t[i] != '<'
        invariant
            pos <= i <= t.len(),
            run_end(t@, pos as int) == run_end(t@, i as int),
        decreases t.len() - i,
    {
        i += 1;
    }
    i
}

fn after_declaration(t: &Vec<char>, pos: usize) -> (r: usize)
    requires
        pos <= t.len(),
    ensures
        r == declaration_end(t@, pos as int),
        pos <= r <= t.len(),
        r < t.len() ==> r + 1 < t.len(),
{
    let mut i: usize = pos;
    while i < t.len() && !(t[i] == '?' && i + 1 < t.len() && t[i + 1] == '>')
        invariant
            pos <= i <= t.len(),
            declaration_end(t@, pos as int) == declaration_end(t@, i as int),
        decreases t.len() - i,
    {
        i += 1;
    }
    i
}

#[verifier::rlimit(30)]
fn read_entity(t: &Vec<char>, pos: usize, end: usize) -> (r: Option<(char, usize)>)
    requires
        pos < end <= t.len(),
        t[pos as int] == '&',
    ensures
        match r {
            Some((c, n)) => entity_at(t@, pos as int, end as int) == Some((c, n as int)) && 0 < n
                && pos + n <= end,
            None => entity_at(t@, pos as int, end as int) is None,
        },
{
    let ghost text = t@;
    let ghost p = pos as int;
    let ghost e = end as int;
    let left = end - pos;
    proof {
        assert forall|pattern: Seq<char>| #[trigger]
            has_at(text, p, e, pattern) <==> (p + pattern.len() <= e && forall|k: int|
                0 <= k < pattern.len() ==> text[p + k] == pattern[k]) by {
            if p + pattern.len() <= e {
                let sub = text.subrange(p, p + pattern.len());
                if sub == pattern {
                    assert forall|k: int| 0 <= k < pattern.len() implies text[p + k]
                        == pattern[k] by {
                        assert(sub[k] == text[p + k]);
                    }
                }
                if forall|k: int| 0 <= k < pattern.len() ==> text[p + k] == pattern[k] {
                    assert(sub =~= pattern);
                }
            }
        }
    }
    if left >= 5 && t[pos + 1] == 'a' && t[pos + 2] == 'm' && t[pos + 3] == 'p' && t[pos + 4]
        == ';' {
        proof {
            let pattern = seq!['&', 'a', 'm', 'p', ';'];
            assert(has_at(text, p, e, pattern));
        }
        return Some(('&', 5));
    }
    proof {
        let pattern = seq!['&', 'a', 'm', 'p', ';'];
        if has_at(text, p, e, pattern) {
            assert(text[p + 1] == pattern[1] && text[p + 2] == pattern[2] && text[p + 3]
                == pattern[3] && text[p + 4] == pattern[4]);
        }
    }
    if left >= 4 && t[pos + 1] == 'l' && t[pos + 2] == 't' && t[pos + 3] == ';' {
        proof {
            let pattern = seq!['&', 'l', 't', ';'];
            assert(has_at(text, p, e, pattern));
        }
        return Some(('<', 4));
    }
    proof {
        let pattern = seq!['&', 'l', 't', ';'];
        if has_at(text, p, e, pattern) {
            assert(text[p + 1] == pattern[1] && text[p + 2] == pattern[2] && text[p + 3]
                == pattern[3]);
        }
    }
    if left >= 4 && t[pos + 1] == 'g' && t[pos + 2] == 't' && t[pos + 3] == ';' {
        proof {
            let pattern = seq!['&', 'g', 't', ';'];
            assert(has_at(text, p, e, pattern));
        }
        return Some(('>', 4));
    }
    proof {
        let pattern = seq!['&', 'g', 't', ';'];
        if has_at(text, p, e, pattern) {
            assert(text[p + 1] == pattern[1] && text[p + 2] == pattern[2] && text[p + 3]
                == pattern[3]);
        }
    }
    if left >= 6 && t[pos + 1] == 'a' && t[pos + 2] == 'p' && t[pos + 3] == 'o' && t[pos + 4]
        == 's' && t[pos + 5] == ';' {
        proof {
            let pattern = seq!['&', 'a', 'p', 'o', 's', ';'];
            assert(has_at(text, p, e, pattern));
        }
        return Some(('\'', 6));
    }
    proof {
        let pattern = seq!['&', 'a', 'p', 'o', 's', ';'];
        if has_at(text, p, e, pattern) {
            assert(text[p + 1] == pattern[1] && text[p + 2] == pattern[2] && text[p + 3]
                == pattern[3] && text[p + 4] == pattern[4] && text[p + 5] == pattern[5]);
        }
    }
    if left >= 6 && t[pos + 1] == 'q' && t[pos + 2] == 'u' && t[pos + 3] == 'o' && t[pos + 4]
        == 't' && t[pos + 5] == ';' {
        proof {
            let pattern = seq!['&', 'q', 'u', 'o', 't', ';'];
            assert(has_at(text, p, e, pattern));
        }
        return Some(('"', 6));
    }
    proof {
        let pattern = seq!['&', 'q', 'u', 'o', 't', ';'];
        if has_at(text, p, e, pattern) {
            assert(text[p + 1] == pattern[1] && text[p + 2] == pattern[2] && text[p + 3]
                == pattern[3] && text[p + 4] == pattern[4] && text[p + 5] == pattern[5]);
        }
    }
    None
}

fn read_run(t: &Vec<char>, pos: usize, end: usize) -> (r: Option<Vec<char>>)
    requires
        pos <= end <= t.len(),
    ensures
        match r {
            Some(run) => unescape(t@, pos as int, end as int) == Some(run@),
            None => unescape(t@, pos as int, end as int) is None,
        },
{
    let mut out: Vec<char> = Vec::new();
    let mut i: usize = pos;
    proof {
        match unescape(t@, pos as int, end as int) {
            Some(rest) => assert(out@ + rest =~= rest),
            None => {},
        }
    }
    while i < end
        invariant
            pos <= i <= end <= t.len(),
            unescape(t@, pos as int, end as int) == extend_text(
                out@,
                unescape(t@, i as int, end as int),
            ),
        decreases end - i,
    {
        let ghost before = out@;
        let c = t[i];
        if c == '&' {
            match read_entity(t, i, end) {
                None => {
                    return None;
                },
                Some((d, n)) => {
                    out.push(d);
                    proof {
                        match unescape(t@, i + n, end as int) {
                            Some(rest) => assert(before + (seq![d] + rest) =~= out@ + rest),
                            None => {},
                        }
                    }
                    i += n;
                },
            }
        } else {
            out.push(c);
            proof {
                match unescape(t@, i + 1, end as int) {
                    Some(rest) => assert(before + (seq![c] + rest) =~= out@ + rest),
                    None => {},
                }
            }
            i += 1;
        }
    }
    proof {
        assert(out@ + Seq::<char>::empty() =~= out@);
    }
    Some(out)
}

fn before_spaces(t: &Vec<char>) -> (r: usize)
    ensures
        r == trim_end_at(t@, t.len() as int),
        r <= t.len(),
{
    let mut i: usize = t.len();
    while i > 0 && space(t[i - 1])
        invariant
            i <= t.len(),
            trim_end_at(t@, t.len() as int) == trim_end_at(t@, i as int),
        decreases i,
    {
        i -= 1;
    }
    i
}

pub(crate) fn normalize_run(t: &Vec<char>, config: &ParserConfig) -> (r: Option<String>)
    ensures
        match r {
            Some(s) => normalize(t@, *config) == Some(s@),
            None => normalize(t@, *config) is None,
        },
{
    let a = after_spaces(t, 0);
    if a >= t.len() {
        if config.trim_whitespace || !config.whitespace_to_characters {
            None
        } else {
            let s = string_of(t, 0, t.len());
            proof {
                assert(t@.subrange(0, t.len() as int) =~= t@);
            }
            Some(s)
        }
    } else if config.trim_whitespace {
        let b = before_spaces(t);
        if a >= b {
            let s = string_of(t, 0, 0);
            proof {
                assert(t@.subrange(0, 0) =~= Seq::<char>::empty());
            }
            Some(s)
        } else {
            Some(string_of(t, a, b))
        }
    } else {
        let s = string_of(t, 0, t.len());
        proof {
            assert(t@.subrange(0, t.len() as int) =~= t@);
        }
        Some(s)
    }
}

/// Whether a step of the reader did what the rules describe: on success
/// it went on to `r`, with the step's events behind those read before.
pub open spec fn step_taken(
    r: Result<usize, Error>,
    step: Result<Step, Error>,
    events_before: Seq<EventModel>,
    events_after: Seq<EventModel>,
    open_after: Seq<Seq<char>>,
) -> bool {
    match r {
        Ok(next) => {
            &&& step is Ok
            &&& step->Ok_0.next == next
            &&& events_after == events_before + step->Ok_0.events
            &&& open_after == step->Ok_0.open
        },
        Err(e) => step == Err::<Step, Error>(e),
    }
}

#[verifier::rlimit(30)]
fn read_tag(
    t: &Vec<char>,
    pos: usize,
    events: &mut Vec<XmlEvent>,
    open: &mut Vec<String>,
    seen_root: bool,
    config: &ParserConfig,
) -> (r: Result<usize, Error>)
    requires
        pos < t.len(),
        t[pos as int] == '<',
    ensures
        step_taken(
            r,
            scan_step(t@, pos as int, names_model(old(open)@), seen_root, *config),
            events_model(old(events)@),
            events_model(final(events)@),
            names_model(final(open)@),
        ),
        r is Ok ==> pos < r->Ok_0 <= t.len(),
        r is Ok ==> (scan_step(
            t@,
            pos as int,
            names_model(old(open)@),
            seen_root,
            *config,
        )->Ok_0).seen_root,
{
    let n = t.len();
    let ghost acc = events_model(events@);
    let ghost stack = names_model(open@);
    let ghost step = scan_step(t@, pos as int, stack, seen_root, *config);
    let closing = n - pos > 1 && t[pos + 1] == '/';
    let start: usize = if closing {
        pos + 2
    } else {
        pos + 1
    };
    let stop = after_name(t, start);
    let close = after_spaces(t, stop);
    if close >= n {
        return Err(Error::UnexpectedEof);
    }
    if stop == start || !name_start(t[start]) {
        return Err(Error::MalformedXml);
    }
    let name = string_of(t, start, stop);
    if closing {
        if t[close] != '>' {
            return Err(Error::MalformedXml);
        }
        match open.pop() {
            None => Err(Error::MalformedXml),
            Some(top) => {
                proof {
                    assert(stack.last() == top@);
                    assert(names_model(open@) =~= stack.drop_last());
                }
                if top != name {
                    return Err(Error::MalformedXml);
                }
                events.push(XmlEvent::EndElement { name });
                proof {
                    assert(events_model(events@) =~= acc + step->Ok_0.events);
                }
                Ok(close + 1)
            },
        }
    } else {
        if open.len() == 0 && seen_root {
            return Err(Error::MalformedXml);
        }
        if t[close] == '>' {
            events.push(XmlEvent::StartElement { name: name.clone() });
            open.push(name);
            proof {
                assert(names_model(open@) =~= stack.push(name@));
                assert(events_model(events@) =~= acc + step->Ok_0.events);
            }
            Ok(close + 1)
        } else if t[close] == '/' {
            if n - close <= 1 {
                return Err(Error::UnexpectedEof);
            }
            if t[close + 1] != '>' {
                return Err(Error::MalformedXml);
            }
            events.push(XmlEvent::StartElement { name: name.clone() });
            events.push(XmlEvent::EndElement { name });
            proof {
                assert(names_model(open@) =~= stack);
                assert(events_model(events@) =~= acc + step->Ok_0.events);
            }
            Ok(close + 2)
        } else {
            Err(Error::MalformedXml)
        }
    }
}

fn read_text(
    t: &Vec<char>,
    pos: usize,
    events: &mut Vec<XmlEvent>,
    inside: bool,
    open: Ghost<Seq<Seq<char>>>,
    seen_root: bool,
    config: &ParserConfig,
) -> (r: Result<usize, Error>)
    requires
        pos < t.len(),
        t[pos as int] != '<',
        inside == (open@.len() > 0),
    ensures
        step_taken(
            r,
            scan_step(t@, pos as int, open@, seen_root, *config),
            events_model(old(events)@),
            events_model(final(events)@),
            open@,
        ),
        r is Ok ==> pos < r->Ok_0 <= t.len(),
        r is Ok ==> (scan_step(t@, pos as int, open@, seen_root, *config)->Ok_0).seen_root
            == seen_root,
{
    let ghost acc = events_model(events@);
    let ghost step = scan_step(t@, pos as int, open@, seen_root, *config);
    let end = after_run(t, pos + 1);
    assert(end as int == run_end(t@, pos as int));
    match read_run(t, pos, end) {
        None => Err(Error::MalformedXml),
        Some(run) => {
            if !inside {
                let a = after_spaces(&run, 0);
                if a < run.len() {
                    return Err(Error::MalformedXml);
                }
                proof {
                    assert(events_model(events@) =~= acc + step->Ok_0.events);
                }
            } else {
                match normalize_run(&run, config) {
                    None => {
                        proof {
                            assert(events_model(events@) =~= acc + step->Ok_0.events);
                        }
                    },
                    Some(s) => {
                        events.push(XmlEvent::Characters(s));
                        proof {
                            assert(events_model(events@) =~= acc + step->Ok_0.events);
                        }
                    },
                }
            }
            Ok(end)
        },
    }
}

/// Reads XML text as events.
#[verifier::rlimit(30)]
pub fn read_events(text: &str, config: &ParserConfig) -> (r: Result<Vec<XmlEvent>, Error>)
    ensures
        events_read(r, tokenize(text@, *config)),
{
    let t = chars_of(text);
    let n = t.len();
    let first = after_spaces(&t, 0);
    let declared = n - first >= 5 && t[first] == '<' && t[first + 1] == '?' && t[first + 2] == 'x'
        && t[first + 3] == 'm' && t[first + 4] == 'l';
    let begin: usize = if declared {
        let q = after_declaration(&t, first + 5);
        if q >= n {
            return Err(Error::UnexpectedEof);
        }
        q + 2
    } else {
        first
    };
    assert(prolog_end(t@) == Some(begin as int));
    let mut events: Vec<XmlEvent> = Vec::new();
    let mut open: Vec<String> = Vec::new();
    let mut seen_root = false;
    let mut pos: usize = begin;
    events.push(XmlEvent::StartDocument);
    let ghost whole = scan(t@, begin as int, Seq::empty(), false, *config);
    proof {
        assert(names_model(open@) =~= Seq::<Seq<char>>::empty());
        assert(events_model(events@) =~= seq![EventModel::StartDocument]);
    }
    while pos < n
        invariant
            begin <= pos <= n,
            n == t.len(),
            t@ == text@,
            whole == scan(t@, begin as int, Seq::empty(), false, *config),
            tokenize(text@, *config) == extend_events(seq![EventModel::StartDocument], whole),
            extend_events(seq![EventModel::StartDocument], whole) == extend_events(
                events_model(events@),
                scan(t@, pos as int, names_model(open@), seen_root, *config),
            ),
        decreases n - pos,
    {
        let ghost acc = events_model(events@);
        let ghost stack = names_model(open@);
        let ghost step = scan_step(t@, pos as int, stack, seen_root, *config);
        let next = if t[pos] == '<' {
            let next = read_tag(&t, pos, &mut events, &mut open, seen_root, config)?;
            seen_root = true;
            next
        } else {
            read_text(&t, pos, &mut events, open.len() > 0, Ghost(stack), seen_root, config)?
        };
        proof {
            let s = step->Ok_0;
            match scan(t@, next as int, names_model(open@), seen_root, *config) {
                Ok(rest) => assert(acc + (s.events + rest) =~= events_model(events@) + rest),
                Err(_) => {},
            }
        }
        pos = next;
    }
    if open.len() > 0 || !seen_root {
        return Err(Error::UnexpectedEof);
    }
    proof {
        assert(events_model(events@) + Seq::<EventModel>::empty() =~= events_model(events@));
    }
    Ok(events)
}

/// Reads a value of the given shape from an XML document, with the
/// configuration and the strictness given.
pub fn from_str_with(shape: &Shape, text: &str, config: &ParserConfig, strict: bool) -> (r: Result<
    Value,
    Error,
>)
    ensures
        value_read(r, decode_text(shape@, text@, *config, strict)),
{
    let events = read_events(text, config)?;
    from_events(shape, &events, strict)
}

/// The configuration of [`from_str`]: whitespace at the ends of text is
/// trimmed.
pub open spec fn default_config() -> ParserConfig {
    ParserConfig { trim_whitespace: true, whitespace_to_characters: true }
}

/// Reads a value of the given shape from an XML document. Whitespace at
/// the ends of text is trimmed, and elements that name no field are
/// passed over.
pub fn from_str(shape: &Shape, text: &str) -> (r: Result<Value, Error>)
    ensures
        value_read(r, decode_text(shape@, text@, default_config(), false)),
{
    let config = ParserConfig { trim_whitespace: true, whitespace_to_characters: true };
    from_str_with(shape, text, &config, false)
}

} // verus!
