//! What holds between the writer and the reader of text: reading a
//! document that was written gives back the events that were written.

use crate::error::Error;
use crate::laws::{
    conforms, content_shape_ok, field_conforms, field_shape_ok, fields_conform, fields_ok,
    item_shape_ok, lemma_item_round_trip, lemma_items_tags, lemma_find_variant, payload_conforms,
    payload_shape_ok, theorem_events_round_trip,
};
use crate::de::rules::find_variant;
use crate::ser::{
    content_nodes, document_events, field_nodes, fields_nodes, is_omitted, item_nodes, items_nodes,
    payload_nodes, scalar_nodes, scalar_text,
};
use crate::shape::{FieldShapeModel, PayloadShapeModel, ShapeModel};
use crate::value::{FieldModel, PayloadModel, ScalarModel, ValueModel};
use crate::reader::decode_text;
use crate::reader::{
    declaration_end, entity_at, extend_events, has_at, is_declaration_start, is_name_char,
    is_name_start, name_end, normalize, prolog_end, run_end, scan, scan_end_tag, scan_start_tag,
    scan_step, scan_text, skip_spaces, tokenize, unescape, ParserConfig, Step,
};
use crate::tree::{
    document, flatten, flatten_all, lemma_flatten_all_first, lemma_flatten_all_single, EventModel,
    NodeModel,
};
use crate::writer::{
    declaration, empty_tag_text, end_tag_text, escape, escape_char, is_empty_element, render,
    render_from, start_tag_text,
};
use vstd::prelude::*;

verus! {

/// Whether `name` can be the tag of an element: it is not empty, begins as
/// a name begins and goes on as a name goes on.
pub open spec fn is_name(name: Seq<char>) -> bool {
    &&& name.len() > 0
    &&& is_name_start(name[0])
    &&& forall|i: int| 0 <= i < name.len() ==> is_name_char(#[trigger] name[i])
}

/// Whether a run of text comes through the reader as it is: it is not
/// empty, and the configuration neither drops nor trims it.
pub open spec fn is_kept(t: Seq<char>, config: ParserConfig) -> bool {
    t.len() > 0 && normalize(t, config) == Some(t)
}

/// Whether `part` stands in `text` at `pos`.
pub open spec fn text_at(text: Seq<char>, pos: int, part: Seq<char>) -> bool {
    &&& 0 <= pos
    &&& pos + part.len() <= text.len()
    &&& forall|k: int| 0 <= k < part.len() ==> text[pos + k] == #[trigger] part[k]
}

/// A text stands at a position exactly where its two halves stand one
/// behind the other.
pub proof fn lemma_text_at_split(text: Seq<char>, pos: int, a: Seq<char>, b: Seq<char>)
    ensures
        text_at(text, pos, a + b) <==> text_at(text, pos, a) && text_at(text, pos + a.len(), b),
{
    let ab = a + b;
    if text_at(text, pos, ab) {
        assert forall|k: int| 0 <= k < a.len() implies text[pos + k] == #[trigger] a[k] by {
            assert(ab[k] == a[k]);
        }
        assert forall|k: int| 0 <= k < b.len() implies text[pos + a.len() + k] == #[trigger] b[k] by {
            assert(ab[a.len() + k] == b[k]);
        }
    }
    if text_at(text, pos, a) && text_at(text, pos + a.len(), b) {
        assert forall|k: int| 0 <= k < ab.len() implies text[pos + k] == #[trigger] ab[k] by {
            if k < a.len() {
                assert(ab[k] == a[k]);
            } else {
                assert(ab[k] == b[k - a.len()]);
                assert(text[pos + a.len() + (k - a.len())] == b[k - a.len()]);
            }
        }
    }
}

/// Where a text stands, the slice of its length is that text.
pub proof fn lemma_text_at_subrange(text: Seq<char>, pos: int, part: Seq<char>)
    requires
        text_at(text, pos, part),
    ensures
        text.subrange(pos, pos + part.len()) == part,
{
    let sub = text.subrange(pos, pos + part.len());
    assert forall|k: int| 0 <= k < part.len() implies sub[k] == part[k] by {
        assert(text[pos + k] == part[k]);
    }
    assert(sub =~= part);
}

/// A name that stands in the text, with no character of a name behind it,
/// ends where it ends.
pub proof fn lemma_name_end(text: Seq<char>, pos: int, name: Seq<char>)
    requires
        text_at(text, pos, name),
        forall|i: int| 0 <= i < name.len() ==> is_name_char(#[trigger] name[i]),
        pos + name.len() == text.len() || !is_name_char(text[pos + name.len()]),
    ensures
        name_end(text, pos) == pos + name.len(),
    decreases name.len(),
{
    if name.len() > 0 {
        let rest = name.skip(1);
        assert(text[pos + 0] == name[0]);
        assert forall|k: int| 0 <= k < rest.len() implies text[pos + 1 + k] == #[trigger] rest[k] by {
            assert(text[pos + (k + 1)] == name[k + 1]);
        }
        assert forall|i: int| 0 <= i < rest.len() implies is_name_char(#[trigger] rest[i]) by {
            assert(rest[i] == name[i + 1]);
        }
        lemma_name_end(text, pos + 1, rest);
    }
}

/// A run that holds no `<` and stands before a `<`, or at the end of the
/// text, ends where it ends.
pub proof fn lemma_run_end(text: Seq<char>, pos: int, run: Seq<char>)
    requires
        text_at(text, pos, run),
        forall|i: int| 0 <= i < run.len() ==> #[trigger] run[i] != '<',
        pos + run.len() == text.len() || text[pos + run.len()] == '<',
    ensures
        run_end(text, pos) == pos + run.len(),
    decreases run.len(),
{
    if run.len() > 0 {
        let rest = run.skip(1);
        assert(text[pos + 0] == run[0]);
        assert forall|k: int| 0 <= k < rest.len() implies text[pos + 1 + k] == #[trigger] rest[k] by {
            assert(text[pos + (k + 1)] == run[k + 1]);
        }
        assert forall|i: int| 0 <= i < rest.len() implies #[trigger] rest[i] != '<' by {
            assert(rest[i] == run[i + 1]);
        }
        lemma_run_end(text, pos + 1, rest);
    }
}

/// The written form of two runs of text, one behind the other.
pub proof fn lemma_escape_concat(a: Seq<char>, b: Seq<char>)
    ensures
        escape(a + b) == escape(a) + escape(b),
    decreases b.len(),
{
    if b.len() == 0 {
        assert(a + b =~= a);
        assert(escape(a) + escape(b) =~= escape(a));
    } else {
        lemma_escape_concat(a, b.drop_last());
        assert((a + b).drop_last() =~= a + b.drop_last());
        assert((a + b).last() == b.last());
        assert(escape(a + b) =~= escape(a) + escape(b));
    }
}

/// The written form of a run of text, first character first.
pub proof fn lemma_escape_first(t: Seq<char>)
    requires
        t.len() > 0,
    ensures
        escape(t) == escape_char(t[0]) + escape(t.skip(1)),
{
    let head = seq![t[0]];
    lemma_escape_concat(head, t.skip(1));
    assert(head + t.skip(1) =~= t);
    assert(head.drop_last() =~= Seq::<char>::empty());
    assert(escape(Seq::<char>::empty()) =~= Seq::<char>::empty());
    assert(escape(head) =~= escape_char(t[0]));
}

/// Written text holds no `<`, and where the text is not empty neither is
/// what is written.
pub proof fn lemma_escape_plain(t: Seq<char>)
    ensures
        forall|i: int| 0 <= i < escape(t).len() ==> #[trigger] escape(t)[i] != '<',
        t.len() > 0 ==> escape(t).len() > 0,
    decreases t.len(),
{
    if t.len() > 0 {
        lemma_escape_plain(t.drop_last());
        let init = escape(t.drop_last());
        let last = escape_char(t.last());
        assert forall|i: int| 0 <= i < escape(t).len() implies #[trigger] escape(t)[i] != '<' by {
            if i < init.len() {
                assert(escape(t)[i] == init[i]);
            } else {
                assert(escape(t)[i] == last[i - init.len()]);
            }
        }
    }
}

/// The entity that stands where a reserved character was written.
#[verifier::rlimit(30)]
pub proof fn lemma_entity_at(text: Seq<char>, pos: int, end: int, c: char)
    requires
        text_at(text, pos, escape_char(c)),
        pos + escape_char(c).len() <= end <= text.len(),
        c == '&' || c == '<' || c == '>' || c == '\'' || c == '"',
    ensures
        text[pos] == '&',
        entity_at(text, pos, end) == Some((c, escape_char(c).len() as int)),
{
    let e = escape_char(c);
    lemma_text_at_subrange(text, pos, e);
    assert(text[pos + 0] == e[0]);
    assert(text[pos + 1] == e[1]);
    assert(text[pos + 2] == e[2]);
    let amp = seq!['&', 'a', 'm', 'p', ';'];
    let lt = seq!['&', 'l', 't', ';'];
    let gt = seq!['&', 'g', 't', ';'];
    let apos = seq!['&', 'a', 'p', 'o', 's', ';'];
    let quot = seq!['&', 'q', 'u', 'o', 't', ';'];
    if c != '&' {
        if has_at(text, pos, end, amp) {
            assert(text.subrange(pos, pos + 5)[1] == amp[1]);
            assert(text.subrange(pos, pos + 5)[2] == amp[2]);
        }
    }
    if c != '&' && c != '<' {
        if has_at(text, pos, end, lt) {
            assert(text.subrange(pos, pos + 4)[1] == lt[1]);
        }
    }
    if c != '&' && c != '<' && c != '>' {
        if has_at(text, pos, end, gt) {
            assert(text.subrange(pos, pos + 4)[1] == gt[1]);
        }
    }
    if c == '"' {
        if has_at(text, pos, end, apos) {
            assert(text.subrange(pos, pos + 6)[1] == apos[1]);
        }
    }
}

/// Resolving the entities of written text gives the text back.
pub proof fn lemma_unescape_escape(text: Seq<char>, pos: int, t: Seq<char>)
    requires
        text_at(text, pos, escape(t)),
    ensures
        unescape(text, pos, pos + escape(t).len()) == Some(t),
    decreases t.len(),
{
    let end = pos + escape(t).len();
    if t.len() == 0 {
        assert(t =~= Seq::<char>::empty());
    } else {
        let c = t[0];
        let rest = t.skip(1);
        lemma_escape_first(t);
        lemma_text_at_split(text, pos, escape_char(c), escape(rest));
        let n = escape_char(c).len() as int;
        lemma_unescape_escape(text, pos + n, rest);
        assert(pos + n + escape(rest).len() == end);
        assert(seq![c] + rest =~= t);
        if c == '&' || c == '<' || c == '>' || c == '\'' || c == '"' {
            lemma_entity_at(text, pos, end, c);
        } else {
            assert(text[pos + 0] == escape_char(c)[0]);
        }
    }
}

/// The step over a start tag that was written.
pub proof fn lemma_scan_start(
    text: Seq<char>,
    pos: int,
    name: Seq<char>,
    open: Seq<Seq<char>>,
    seen_root: bool,
    config: ParserConfig,
)
    requires
        text_at(text, pos, start_tag_text(name)),
        is_name(name),
        open.len() > 0 || !seen_root,
    ensures
        scan_step(text, pos, open, seen_root, config) == Ok::<Step, Error>(
            Step {
                events: seq![EventModel::StartElement { name }],
                next: pos + name.len() + 2,
                open: open.push(name),
                seen_root: true,
            },
        ),
{
    let tag = start_tag_text(name);
    lemma_text_at_split(text, pos, seq!['<'] + name, seq!['>']);
    lemma_text_at_split(text, pos, seq!['<'], name);
    let stop = pos + 1 + name.len();
    assert(text[pos + 0] == seq!['<'][0]);
    assert(text[stop + 0] == seq!['>'][0]);
    assert(text[pos + 1 + 0] == name[0]);
    lemma_name_end(text, pos + 1, name);
    lemma_text_at_subrange(text, pos + 1, name);
    assert(scan_start_tag(text, pos, open, seen_root) == Ok::<Step, Error>(
        Step {
            events: seq![EventModel::StartElement { name }],
            next: pos + name.len() + 2,
            open: open.push(name),
            seen_root: true,
        },
    ));
}

/// The step over the tag of an empty element that was written.
pub proof fn lemma_scan_empty(
    text: Seq<char>,
    pos: int,
    name: Seq<char>,
    open: Seq<Seq<char>>,
    seen_root: bool,
    config: ParserConfig,
)
    requires
        text_at(text, pos, empty_tag_text(name)),
        is_name(name),
        open.len() > 0 || !seen_root,
    ensures
        scan_step(text, pos, open, seen_root, config) == Ok::<Step, Error>(
            Step {
                events: seq![EventModel::StartElement { name }, EventModel::EndElement { name }],
                next: pos + name.len() + 4,
                open,
                seen_root: true,
            },
        ),
{
    let tail = seq![' ', '/', '>'];
    lemma_text_at_split(text, pos, seq!['<'] + name, tail);
    lemma_text_at_split(text, pos, seq!['<'], name);
    let stop = pos + 1 + name.len();
    assert(text[pos + 0] == seq!['<'][0]);
    assert(text[stop + 0] == tail[0]);
    assert(text[stop + 1] == tail[1]);
    assert(text[stop + 2] == tail[2]);
    assert(text[pos + 1 + 0] == name[0]);
    lemma_name_end(text, pos + 1, name);
    lemma_text_at_subrange(text, pos + 1, name);
    assert(skip_spaces(text, stop + 1) == stop + 1);
    assert(skip_spaces(text, stop) == stop + 1);
    assert(scan_start_tag(text, pos, open, seen_root) == Ok::<Step, Error>(
        Step {
            events: seq![EventModel::StartElement { name }, EventModel::EndElement { name }],
            next: pos + name.len() + 4,
            open,
            seen_root: true,
        },
    ));
}

/// The step over an end tag that was written.
pub proof fn lemma_scan_end(
    text: Seq<char>,
    pos: int,
    name: Seq<char>,
    open: Seq<Seq<char>>,
    seen_root: bool,
    config: ParserConfig,
)
    requires
        text_at(text, pos, end_tag_text(name)),
        is_name(name),
        open.len() > 0,
        open.last() == name,
    ensures
        scan_step(text, pos, open, seen_root, config) == Ok::<Step, Error>(
            Step {
                events: seq![EventModel::EndElement { name }],
                next: pos + name.len() + 3,
                open: open.drop_last(),
                seen_root: true,
            },
        ),
{
    let head = seq!['<', '/'];
    lemma_text_at_split(text, pos, head + name, seq!['>']);
    lemma_text_at_split(text, pos, head, name);
    let stop = pos + 2 + name.len();
    assert(text[pos + 0] == head[0]);
    assert(text[pos + 1] == head[1]);
    assert(text[stop + 0] == seq!['>'][0]);
    assert(text[pos + 2 + 0] == name[0]);
    lemma_name_end(text, pos + 2, name);
    lemma_text_at_subrange(text, pos + 2, name);
    assert(scan_end_tag(text, pos, open) == Ok::<Step, Error>(
        Step {
            events: seq![EventModel::EndElement { name }],
            next: pos + name.len() + 3,
            open: open.drop_last(),
            seen_root: true,
        },
    ));
}

/// The step over a run of text that was written inside an element, and
/// that the configuration keeps.
pub proof fn lemma_scan_text(
    text: Seq<char>,
    pos: int,
    t: Seq<char>,
    open: Seq<Seq<char>>,
    seen_root: bool,
    config: ParserConfig,
)
    requires
        text_at(text, pos, escape(t)),
        is_kept(t, config),
        open.len() > 0,
        pos + escape(t).len() < text.len(),
        text[pos + escape(t).len()] == '<',
    ensures
        scan_step(text, pos, open, seen_root, config) == Ok::<Step, Error>(
            Step {
                events: seq![EventModel::Characters(t)],
                next: pos + escape(t).len(),
                open,
                seen_root,
            },
        ),
{
    let run = escape(t);
    lemma_escape_plain(t);
    assert(text[pos + 0] == run[0]);
    lemma_run_end(text, pos, run);
    lemma_unescape_escape(text, pos, t);
    assert(scan_text(text, pos, open, seen_root, config) == Ok::<Step, Error>(
        Step { events: seq![EventModel::Characters(t)], next: pos + run.len(), open, seen_root },
    ));
}

/// The text of a node: an element without children is one tag, any other
/// element a pair of tags round the text of its children, and text is
/// written with its entities.
pub open spec fn node_text(n: NodeModel) -> Seq<char>
    decreases n, 0nat,
{
    match n {
        NodeModel::Text(t) => escape(t),
        NodeModel::Element { name, children } => if children.len() == 0 {
            empty_tag_text(name)
        } else {
            start_tag_text(name) + nodes_text(children) + end_tag_text(name)
        },
    }
}

/// The text of sibling nodes, one behind the other.
pub open spec fn nodes_text(ns: Seq<NodeModel>) -> Seq<char>
    decreases ns, 0nat,
{
    if ns.len() == 0 {
        Seq::empty()
    } else {
        node_text(ns[0]) + nodes_text(ns.drop_first())
    }
}

/// Whether a node comes through the reader as it is: every tag in it is a
/// name, every text is kept by the configuration, and text is the only
/// child of its element.
pub open spec fn clean(n: NodeModel, config: ParserConfig) -> bool
    decreases n, 0nat,
{
    match n {
        NodeModel::Text(t) => is_kept(t, config),
        NodeModel::Element { name, children } => is_name(name) && clean_children(children, config),
    }
}

/// Whether the children of an element come through the reader as they
/// are: one text that is kept, or clean elements only.
pub open spec fn clean_children(ns: Seq<NodeModel>, config: ParserConfig) -> bool
    decreases ns, 0nat,
{
    ||| (ns.len() == 1 && ns[0] is Text && clean(ns[0], config))
    ||| forall|i: int| 0 <= i < ns.len() ==> (#[trigger] ns[i]) is Element && clean(ns[i], config)
}

/// The events of a node begin with no end tag.
pub proof fn lemma_flatten_head(n: NodeModel)
    ensures
        flatten(n).len() > 0,
        !(flatten(n)[0] is EndElement),
{
}

/// The text of events is the text of the nodes that they spell out,
/// wherever in a stream the nodes stand.
#[verifier::rlimit(30)]
pub proof fn lemma_render_nodes(pre: Seq<EventModel>, ns: Seq<NodeModel>, post: Seq<EventModel>)
    ensures
        render_from(pre + flatten_all(ns) + post, pre.len() as int) == nodes_text(ns)
            + render_from(
            pre + flatten_all(ns) + post,
            (pre.len() + flatten_all(ns).len()) as int,
        ),
    decreases ns,
{
    let events = pre + flatten_all(ns) + post;
    let pos = pre.len() as int;
    if ns.len() == 0 {
        assert(flatten_all(ns) =~= Seq::<EventModel>::empty());
        assert(nodes_text(ns) + render_from(events, pos) =~= render_from(events, pos));
    } else {
        let first = ns[0];
        let rest = ns.drop_first();
        lemma_flatten_all_first(ns);
        let after = (pre.len() + flatten_all(ns).len()) as int;
        assert(nodes_text(ns) == node_text(first) + nodes_text(rest));
        match first {
            NodeModel::Text(t) => {
                let passed = pre.push(EventModel::Characters(t));
                assert(events =~= passed + flatten_all(rest) + post);
                assert(events[pos] == EventModel::Characters(t));
                lemma_render_nodes(passed, rest, post);
                assert(passed.len() + flatten_all(rest).len() == after);
                assert(node_text(first) == escape(t));
                assert(render_from(events, pos) == escape(t) + render_from(events, pos + 1));
                assert(escape(t) + (nodes_text(rest) + render_from(events, after)) =~= nodes_text(
                    ns,
                ) + render_from(events, after));
            },
            NodeModel::Element { name, children } => {
                let open = EventModel::StartElement { name };
                let close = EventModel::EndElement { name };
                assert(events[pos] == open);
                if children.len() == 0 {
                    assert(flatten_all(children) =~= Seq::<EventModel>::empty());
                    assert(flatten(first) =~= seq![open, close]);
                    let passed = pre + seq![open, close];
                    assert(events =~= passed + flatten_all(rest) + post);
                    assert(events[pos + 1] == close);
                    assert(is_empty_element(events, pos));
                    lemma_render_nodes(passed, rest, post);
                    assert(passed.len() + flatten_all(rest).len() == after);
                    assert(node_text(first) == empty_tag_text(name));
                    assert(render_from(events, pos) == empty_tag_text(name) + render_from(
                        events,
                        pos + 2,
                    ));
                    assert(empty_tag_text(name) + (nodes_text(rest) + render_from(events, after))
                        =~= nodes_text(ns) + render_from(events, after));
                } else {
                    lemma_flatten_all_first(children);
                    lemma_flatten_head(children[0]);
                    let opened = pre.push(open);
                    let closing = seq![close] + flatten_all(rest) + post;
                    assert(events =~= opened + flatten_all(children) + closing);
                    assert(events[pos + 1] == flatten(children[0])[0]);
                    assert(!is_empty_element(events, pos));
                    lemma_render_nodes(opened, children, closing);
                    let at = (opened.len() + flatten_all(children).len()) as int;
                    assert(events[at] == close);
                    let passed = opened + flatten_all(children) + seq![close];
                    assert(events =~= passed + flatten_all(rest) + post);
                    lemma_render_nodes(passed, rest, post);
                    assert(passed.len() == at + 1);
                    assert(passed.len() + flatten_all(rest).len() == after);
                    assert(node_text(first) == start_tag_text(name) + nodes_text(children)
                        + end_tag_text(name));
                    assert(render_from(events, pos) == start_tag_text(name) + render_from(
                        events,
                        pos + 1,
                    ));
                    assert(render_from(events, at) == end_tag_text(name) + render_from(
                        events,
                        at + 1,
                    ));
                    assert(start_tag_text(name) + (nodes_text(children) + (end_tag_text(name) + (
                    nodes_text(rest) + render_from(events, after)))) =~= nodes_text(ns)
                        + render_from(events, after));
                }
            },
        }
    }
}

/// Events in front of what a reading gave, twice over.
pub proof fn lemma_extend_twice(
    a: Seq<EventModel>,
    b: Seq<EventModel>,
    r: Result<Seq<EventModel>, Error>,
)
    ensures
        extend_events(a, extend_events(b, r)) == extend_events(a + b, r),
{
    match r {
        Ok(rest) => {
            assert(a + (b + rest) =~= (a + b) + rest);
        },
        Err(_) => {},
    }
}

/// One step of the reader, and the reading behind it.
pub proof fn lemma_scan_unfold(
    text: Seq<char>,
    pos: int,
    open: Seq<Seq<char>>,
    seen_root: bool,
    config: ParserConfig,
    step: Step,
)
    requires
        0 <= pos < step.next <= text.len(),
        scan_step(text, pos, open, seen_root, config) == Ok::<Step, Error>(step),
    ensures
        scan(text, pos, open, seen_root, config) == extend_events(
            step.events,
            scan(text, step.next, step.open, step.seen_root, config),
        ),
{
}

/// The reader, at the tag of an element without children, gives the
/// events of the element and goes on behind the tag.
pub proof fn lemma_scan_childless(
    text: Seq<char>,
    pos: int,
    name: Seq<char>,
    open: Seq<Seq<char>>,
    seen_root: bool,
    config: ParserConfig,
)
    requires
        text_at(text, pos, empty_tag_text(name)),
        is_name(name),
        open.len() > 0 || !seen_root,
    ensures
        scan(text, pos, open, seen_root, config) == extend_events(
            flatten(NodeModel::Element { name, children: Seq::empty() }),
            scan(text, pos + name.len() + 4, open, true, config),
        ),
{
    let node = NodeModel::Element { name, children: Seq::empty() };
    let start = EventModel::StartElement { name };
    let end = EventModel::EndElement { name };
    assert(flatten_all(Seq::<NodeModel>::empty()) =~= Seq::<EventModel>::empty());
    assert(flatten(node) =~= seq![start, end]);
    lemma_scan_empty(text, pos, name, open, seen_root, config);
    lemma_scan_unfold(
        text,
        pos,
        open,
        seen_root,
        config,
        Step { events: seq![start, end], next: pos + name.len() + 4, open, seen_root: true },
    );
}

/// The reader, at the start tag of an element with children: given what
/// it reads of the children, and the end tag behind them, it gives the
/// events of the element and goes on behind the end tag.
#[verifier::rlimit(30)]
pub proof fn lemma_scan_parent(
    text: Seq<char>,
    pos: int,
    name: Seq<char>,
    children: Seq<NodeModel>,
    width: int,
    open: Seq<Seq<char>>,
    seen_root: bool,
    config: ParserConfig,
)
    requires
        0 <= width,
        text_at(text, pos, start_tag_text(name)),
        text_at(text, pos + name.len() + 2 + width, end_tag_text(name)),
        is_name(name),
        open.len() > 0 || !seen_root,
        scan(text, pos + name.len() + 2, open.push(name), true, config) == extend_events(
            flatten_all(children),
            scan(text, pos + name.len() + 2 + width, open.push(name), true, config),
        ),
    ensures
        scan(text, pos, open, seen_root, config) == extend_events(
            flatten(NodeModel::Element { name, children }),
            scan(text, pos + 2 * name.len() + 5 + width, open, true, config),
        ),
{
    let node = NodeModel::Element { name, children };
    let start = EventModel::StartElement { name };
    let end = EventModel::EndElement { name };
    let inner_at = pos + name.len() + 2;
    let closing_at = inner_at + width;
    let beyond = closing_at + name.len() + 3;
    let within = open.push(name);
    let tail = scan(text, beyond, open, true, config);
    let from_closing = scan(text, closing_at, within, true, config);
    let from_inner = scan(text, inner_at, within, true, config);
    assert(scan(text, pos, open, seen_root, config) == extend_events(seq![start], from_inner)) by {
        lemma_scan_start(text, pos, name, open, seen_root, config);
        lemma_scan_unfold(
            text,
            pos,
            open,
            seen_root,
            config,
            Step { events: seq![start], next: inner_at, open: within, seen_root: true },
        );
    }
    assert(from_closing == extend_events(seq![end], tail)) by {
        lemma_scan_end(text, closing_at, name, within, true, config);
        assert(within.drop_last() =~= open);
        lemma_scan_unfold(
            text,
            closing_at,
            within,
            true,
            config,
            Step { events: seq![end], next: beyond, open, seen_root: true },
        );
    }
    assert(from_inner == extend_events(flatten_all(children), from_closing));
    lemma_extend_twice(flatten_all(children), seq![end], tail);
    lemma_extend_twice(seq![start], flatten_all(children) + seq![end], tail);
    assert(seq![start] + (flatten_all(children) + seq![end]) =~= flatten(node));
}

/// The reader, at the text of sibling nodes that come through as they
/// are, gives their events and goes on behind them.
#[verifier::rlimit(30)]
pub proof fn lemma_scan_nodes(
    text: Seq<char>,
    pos: int,
    ns: Seq<NodeModel>,
    open: Seq<Seq<char>>,
    seen_root: bool,
    config: ParserConfig,
)
    requires
        text_at(text, pos, nodes_text(ns)),
        clean_children(ns, config),
        open.len() > 0 ==> seen_root,
        open.len() == 0 ==> !seen_root && ns.len() <= 1,
        ns.len() > 0 && ns[0] is Text ==> {
            &&& open.len() > 0
            &&& pos + nodes_text(ns).len() < text.len()
            &&& text[pos + nodes_text(ns).len()] == '<'
        },
    ensures
        scan(text, pos, open, seen_root, config) == extend_events(
            flatten_all(ns),
            scan(text, pos + nodes_text(ns).len(), open, seen_root || ns.len() > 0, config),
        ),
    decreases ns,
{
    let whole = nodes_text(ns);
    let after = pos + whole.len();
    if ns.len() == 0 {
        assert(flatten_all(ns) =~= Seq::<EventModel>::empty());
        match scan(text, pos, open, seen_root, config) {
            Ok(r) => assert(Seq::<EventModel>::empty() + r =~= r),
            Err(_) => {},
        }
    } else {
        let first = ns[0];
        let rest = ns.drop_first();
        lemma_flatten_all_first(ns);
        assert(whole == node_text(first) + nodes_text(rest));
        lemma_text_at_split(text, pos, node_text(first), nodes_text(rest));
        match first {
            NodeModel::Text(t) => {
                assert(ns.len() == 1);
                assert(rest =~= Seq::<NodeModel>::empty());
                assert(nodes_text(rest) =~= Seq::<char>::empty());
                assert(node_text(first) == escape(t));
                assert(whole =~= escape(t));
                assert(flatten_all(rest) =~= Seq::<EventModel>::empty());
                assert(flatten_all(ns) =~= seq![EventModel::Characters(t)]);
                lemma_escape_plain(t);
                lemma_scan_text(text, pos, t, open, seen_root, config);
                lemma_scan_unfold(
                    text,
                    pos,
                    open,
                    seen_root,
                    config,
                    Step {
                        events: seq![EventModel::Characters(t)],
                        next: pos + escape(t).len(),
                        open,
                        seen_root,
                    },
                );
            },
            NodeModel::Element { name, children } => {
                assert(forall|i: int|
                    0 <= i < ns.len() ==> (#[trigger] ns[i]) is Element && clean(ns[i], config));
                assert(clean(first, config));
                assert forall|i: int| 0 <= i < rest.len() implies (#[trigger] rest[i]) is Element
                    && clean(rest[i], config) by {
                    assert(rest[i] == ns[i + 1]);
                }
                let behind = pos + node_text(first).len();
                let tail = scan(text, after, open, true, config);
                // What follows the element.
                if rest.len() > 0 {
                    lemma_scan_nodes(text, behind, rest, open, true, config);
                } else {
                    assert(nodes_text(rest) =~= Seq::<char>::empty());
                    assert(flatten_all(rest) =~= Seq::<EventModel>::empty());
                    match tail {
                        Ok(r) => assert(Seq::<EventModel>::empty() + r =~= r),
                        Err(_) => {},
                    }
                }
                assert(scan(text, behind, open, true, config) == extend_events(
                    flatten_all(rest),
                    tail,
                ));
                // The element itself.
                if children.len() > 0 {
                    let inner = nodes_text(children);
                    let inner_at = pos + name.len() + 2;
                    assert(node_text(first) == start_tag_text(name) + inner + end_tag_text(name));
                    assert(text_at(text, pos, start_tag_text(name)) && text_at(text, inner_at, inner)
                        && text_at(text, inner_at + inner.len(), end_tag_text(name))) by {
                        lemma_text_at_split(
                            text,
                            pos,
                            start_tag_text(name) + inner,
                            end_tag_text(name),
                        );
                        lemma_text_at_split(text, pos, start_tag_text(name), inner);
                    }
                    assert(text[inner_at + inner.len() + 0] == end_tag_text(name)[0]);
                    lemma_scan_nodes(text, inner_at, children, open.push(name), true, config);
                    lemma_scan_parent(
                        text,
                        pos,
                        name,
                        children,
                        inner.len() as int,
                        open,
                        seen_root,
                        config,
                    );
                    assert(behind == pos + 2 * name.len() + 5 + inner.len());
                } else {
                    assert(children =~= Seq::<NodeModel>::empty());
                    assert(node_text(first) == empty_tag_text(name));
                    lemma_scan_childless(text, pos, name, open, seen_root, config);
                }
                lemma_extend_twice(flatten(first), flatten_all(rest), tail);
            },
        }
    }
}

/// Where no `?>` stands between `pos` and `at`, and one stands at `at`,
/// the declaration ends there.
pub proof fn lemma_declaration_end(text: Seq<char>, pos: int, at: int)
    requires
        0 <= pos <= at,
        at + 1 < text.len(),
        forall|k: int| pos <= k < at ==> #[trigger] text[k] != '?',
        text[at] == '?',
        text[at + 1] == '>',
    ensures
        declaration_end(text, pos) == at,
    decreases at - pos,
{
    if pos < at {
        lemma_declaration_end(text, pos + 1, at);
    }
}

/// Behind the declaration that the writer writes, the document begins.
pub proof fn lemma_prolog(rest: Seq<char>)
    ensures
        declaration().len() == 38,
        prolog_end(declaration() + rest) == Some(38int),
{
    reveal_strlit("<?xml version=\"1.0\" encoding=\"UTF-8\"?>");
    let d = declaration();
    let text = d + rest;
    assert(d.len() == 38);
    assert(d[0] == '<' && d[1] == '?' && d[2] == 'x' && d[3] == 'm' && d[4] == 'l');
    assert(d[36] == '?' && d[37] == '>');
    assert forall|k: int| 5 <= k < 36 implies #[trigger] text[k] != '?' by {
        assert(text[k] == d[k]);
        if k == 5 {
            assert(d[5] != '?');
        }
        if k == 6 {
            assert(d[6] != '?');
        }
        if k == 7 {
            assert(d[7] != '?');
        }
        if k == 8 {
            assert(d[8] != '?');
        }
        if k == 9 {
            assert(d[9] != '?');
        }
        if k == 10 {
            assert(d[10] != '?');
        }
        if k == 11 {
            assert(d[11] != '?');
        }
        if k == 12 {
            assert(d[12] != '?');
        }
        if k == 13 {
            assert(d[13] != '?');
        }
        if k == 14 {
            assert(d[14] != '?');
        }
        if k == 15 {
            assert(d[15] != '?');
        }
        if k == 16 {
            assert(d[16] != '?');
        }
        if k == 17 {
            assert(d[17] != '?');
        }
        if k == 18 {
            assert(d[18] != '?');
        }
        if k == 19 {
            assert(d[19] != '?');
        }
        if k == 20 {
            assert(d[20] != '?');
        }
        if k == 21 {
            assert(d[21] != '?');
        }
        if k == 22 {
            assert(d[22] != '?');
        }
        if k == 23 {
            assert(d[23] != '?');
        }
        if k == 24 {
            assert(d[24] != '?');
        }
        if k == 25 {
            assert(d[25] != '?');
        }
        if k == 26 {
            assert(d[26] != '?');
        }
        if k == 27 {
            assert(d[27] != '?');
        }
        if k == 28 {
            assert(d[28] != '?');
        }
        if k == 29 {
            assert(d[29] != '?');
        }
        if k == 30 {
            assert(d[30] != '?');
        }
        if k == 31 {
            assert(d[31] != '?');
        }
        if k == 32 {
            assert(d[32] != '?');
        }
        if k == 33 {
            assert(d[33] != '?');
        }
        if k == 34 {
            assert(d[34] != '?');
        }
        if k == 35 {
            assert(d[35] != '?');
        }
    }
    assert(text[0] == d[0] && text[1] == d[1] && text[2] == d[2] && text[3] == d[3] && text[4]
        == d[4]);
    assert(text[36] == d[36] && text[37] == d[37]);
    assert(skip_spaces(text, 0) == 0);
    assert(is_declaration_start(text, 0));
    lemma_declaration_end(text, 5, 36);
}

/// The round-trip law on text, for element trees: a document whose tags
/// are names and whose texts the configuration keeps is written as the
/// declaration and the text of its root, and reading that text gives back
/// the events that were written.
pub proof fn theorem_tokenize_render(root: NodeModel, config: ParserConfig)
    requires
        root is Element,
        clean(root, config),
    ensures
        render(document(root)) == declaration() + node_text(root),
        tokenize(render(document(root)), config) == Ok::<Seq<EventModel>, Error>(document(root)),
{
    let pre = seq![EventModel::StartDocument];
    let one = seq![root];
    let events = document(root);
    lemma_flatten_all_single(root);
    assert(one.drop_first() =~= Seq::<NodeModel>::empty());
    assert(nodes_text(Seq::<NodeModel>::empty()) =~= Seq::<char>::empty());
    assert(nodes_text(one) =~= node_text(root));
    // The text of the events.
    lemma_render_nodes(pre, one, Seq::empty());
    assert(pre + flatten_all(one) + Seq::<EventModel>::empty() =~= events);
    assert(render_from(events, events.len() as int) =~= Seq::<char>::empty());
    assert(render_from(events, 1) =~= node_text(root));
    assert(events[0] == EventModel::StartDocument);
    let text = declaration() + node_text(root);
    assert(render(events) =~= text);
    // The events of the text.
    lemma_prolog(node_text(root));
    assert forall|k: int| 0 <= k < node_text(root).len() implies text[38 + k]
        == #[trigger] node_text(root)[k] by {}
    assert(text_at(text, 38, nodes_text(one)));
    lemma_scan_nodes(text, 38, one, Seq::empty(), false, config);
    let stop = (38 + node_text(root).len()) as int;
    assert(stop == text.len());
    assert(scan(text, stop, Seq::empty(), true, config) == Ok::<Seq<EventModel>, Error>(
        Seq::empty(),
    ));
    assert(flatten_all(one) + Seq::<EventModel>::empty() =~= flatten(root));
    assert(seq![EventModel::StartDocument] + flatten(root) =~= events);
}

/// Whether a primitive is written as text that comes through the reader
/// as it is. Empty text is not written at all, and is read as empty.
pub open spec fn scalar_writable(s: ScalarModel, config: ParserConfig) -> bool {
    scalar_text(s).len() == 0 || is_kept(scalar_text(s), config)
}

/// Whether what a value writes as the content of an element comes through
/// the reader as it is: every tag that is written is a name, and every
/// text that is written is kept by the configuration.
pub open spec fn content_writable(v: ValueModel, config: ParserConfig) -> bool
    decreases v, 0nat,
{
    match v {
        ValueModel::Scalar(s) => scalar_writable(s, config),
        ValueModel::Struct { name, fields } => fields_writable(fields, config),
        ValueModel::Variant { name, payload } => is_name(name) && payload_writable(
            payload,
            config,
        ),
        ValueModel::Sequence(items) => forall|k: int|
            0 <= k < items.len() ==> item_writable(#[trigger] items[k], config),
        ValueModel::Optional(None) => true,
        ValueModel::Optional(Some(inner)) => content_writable(*inner, config),
    }
}

/// Whether what a value writes as an item of a sequence, or as the root
/// of a document, comes through the reader as it is.
pub open spec fn item_writable(v: ValueModel, config: ParserConfig) -> bool
    decreases v, 1nat,
{
    match v {
        ValueModel::Struct { name, fields } => is_name(name) && fields_writable(fields, config),
        ValueModel::Optional(Some(inner)) => item_writable(*inner, config),
        _ => content_writable(v, config),
    }
}

/// Whether what a variant carries comes through the reader as it is.
pub open spec fn payload_writable(p: PayloadModel, config: ParserConfig) -> bool
    decreases p, 0nat,
{
    match p {
        PayloadModel::Unit => true,
        PayloadModel::Single(inner) => content_writable(*inner, config),
        PayloadModel::Struct(fields) => fields_writable(fields, config),
    }
}

/// Whether what the fields of a struct write comes through the reader as
/// it is.
pub open spec fn fields_writable(fields: Seq<FieldModel>, config: ParserConfig) -> bool
    decreases fields, 1nat,
{
    forall|i: int| 0 <= i < fields.len() ==> field_writable(#[trigger] fields[i], config)
}

/// Whether what a field writes comes through the reader as it is. A field
/// that is left out writes nothing; the name of a field that stands for
/// the body is not written.
pub open spec fn field_writable(f: FieldModel, config: ParserConfig) -> bool
    decreases f, 0nat,
{
    is_omitted(f) || ((f.flatten || is_name(f.name)) && content_writable(f.value, config))
}

/// Whether every node is an element that comes through the reader as it
/// is.
pub open spec fn clean_elements(ns: Seq<NodeModel>, config: ParserConfig) -> bool {
    forall|i: int| 0 <= i < ns.len() ==> (#[trigger] ns[i]) is Element && clean(ns[i], config)
}

/// Clean elements behind clean elements are clean elements.
pub proof fn lemma_clean_elements_concat(
    a: Seq<NodeModel>,
    b: Seq<NodeModel>,
    config: ParserConfig,
)
    requires
        clean_elements(a, config),
        clean_elements(b, config),
    ensures
        clean_elements(a + b, config),
{
    assert forall|i: int| 0 <= i < (a + b).len() implies (#[trigger] (a + b)[i]) is Element
        && clean((a + b)[i], config) by {
        if i < a.len() {
            assert((a + b)[i] == a[i]);
        } else {
            assert((a + b)[i] == b[i - a.len()]);
        }
    }
}

/// What a writable value of a shape writes as content comes through the
/// reader as it is.
pub proof fn lemma_content_clean(v: ValueModel, s: ShapeModel, config: ParserConfig)
    requires
        content_shape_ok(s),
        conforms(v, s),
        content_writable(v, config),
    ensures
        clean_children(content_nodes(v), config),
        s is Struct || s is Enum || s is Sequence ==> clean_elements(content_nodes(v), config),
    decreases s, 0nat,
{
    match s {
        ShapeModel::Scalar(kind) => {
            match v {
                ValueModel::Scalar(x) => {
                    let ns = scalar_nodes(x);
                    if ns.len() > 0 {
                        assert(ns[0] == NodeModel::Text(scalar_text(x)));
                        assert(clean(ns[0], config));
                    }
                },
                _ => {},
            }
        },
        ShapeModel::Struct { name, fields } => {
            match v {
                ValueModel::Struct { name: n, fields: vs } => {
                    lemma_fields_clean(vs, fields, vs.len() as int, config);
                    assert(vs.take(vs.len() as int) =~= vs);
                },
                _ => {},
            }
        },
        ShapeModel::Enum { variants } => {
            match v {
                ValueModel::Variant { name, payload } => {
                    lemma_find_variant(variants, name, 0);
                    let i = find_variant(variants, name, 0)->0;
                    assert(payload_shape_ok(variants[i].payload));
                    lemma_payload_clean(payload, variants[i].payload, config);
                    let node = NodeModel::Element { name, children: payload_nodes(payload) };
                    assert(content_nodes(v) == seq![node]);
                    assert(clean(node, config));
                },
                _ => {},
            }
        },
        ShapeModel::Sequence(item) => {
            match v {
                ValueModel::Sequence(items) => {
                    lemma_items_clean(items, *item, config);
                },
                _ => {},
            }
        },
        ShapeModel::Optional(_) => {},
    }
}

/// What a writable item writes is one element that comes through the
/// reader as it is.
pub proof fn lemma_item_clean(v: ValueModel, s: ShapeModel, config: ParserConfig)
    requires
        item_shape_ok(s),
        conforms(v, s),
        item_writable(v, config),
    ensures
        item_nodes(v).len() == 1,
        item_nodes(v)[0] is Element,
        clean(item_nodes(v)[0], config),
    decreases s, 1nat,
{
    match s {
        ShapeModel::Struct { name, fields } => {
            match v {
                ValueModel::Struct { name: n, fields: vs } => {
                    lemma_fields_clean(vs, fields, vs.len() as int, config);
                    assert(vs.take(vs.len() as int) =~= vs);
                    let node = NodeModel::Element { name: n, children: fields_nodes(vs) };
                    assert(item_nodes(v) == seq![node]);
                    assert(clean_children(fields_nodes(vs), config));
                    assert(clean(node, config));
                },
                _ => {},
            }
        },
        ShapeModel::Enum { variants } => {
            match v {
                ValueModel::Variant { name, payload } => {
                    lemma_content_clean(v, s, config);
                    let node = NodeModel::Element { name, children: payload_nodes(payload) };
                    assert(item_nodes(v) == content_nodes(v));
                    assert(content_nodes(v) == seq![node]);
                    assert(content_nodes(v)[0] == node);
                },
                _ => {},
            }
        },
        _ => {},
    }
}

/// What writable items write are elements that come through the reader as
/// they are.
pub proof fn lemma_items_clean(items: Seq<ValueModel>, item: ShapeModel, config: ParserConfig)
    requires
        item_shape_ok(item),
        forall|k: int| 0 <= k < items.len() ==> conforms(#[trigger] items[k], item),
        forall|k: int| 0 <= k < items.len() ==> item_writable(#[trigger] items[k], config),
    ensures
        clean_elements(items_nodes(items), config),
    decreases item, 2 + items.len(),
{
    lemma_items_tags(items, item);
    let nodes = items_nodes(items);
    assert forall|i: int| 0 <= i < nodes.len() implies (#[trigger] nodes[i]) is Element && clean(
        nodes[i],
        config,
    ) by {
        assert(conforms(items[i], item));
        assert(item_writable(items[i], config));
        lemma_item_clean(items[i], item, config);
        assert(item_nodes(items[i]) == seq![nodes[i]]);
        assert(item_nodes(items[i])[0] == nodes[i]);
    }
}

/// What a writable payload writes comes through the reader as it is.
pub proof fn lemma_payload_clean(p: PayloadModel, s: PayloadShapeModel, config: ParserConfig)
    requires
        payload_shape_ok(s),
        payload_conforms(p, s),
        payload_writable(p, config),
    ensures
        clean_children(payload_nodes(p), config),
    decreases s, 0nat,
{
    match s {
        PayloadShapeModel::Unit => {},
        PayloadShapeModel::Single(inner) => {
            match p {
                PayloadModel::Single(x) => {
                    lemma_content_clean(*x, *inner, config);
                },
                _ => {},
            }
        },
        PayloadShapeModel::Struct(fields) => {
            match p {
                PayloadModel::Struct(vs) => {
                    lemma_fields_clean(vs, fields, vs.len() as int, config);
                    assert(vs.take(vs.len() as int) =~= vs);
                },
                _ => {},
            }
        },
    }
}

/// What the first `k` writable fields of a struct write are elements that
/// come through the reader as they are.
pub proof fn lemma_fields_clean(
    vs: Seq<FieldModel>,
    fs: Seq<FieldShapeModel>,
    k: int,
    config: ParserConfig,
)
    requires
        fields_ok(fs),
        fields_conform(vs, fs),
        fields_writable(vs, config),
        0 <= k <= vs.len(),
    ensures
        clean_elements(fields_nodes(vs.take(k)), config),
    decreases fs, k + 1,
{
    if k == 0 {
        assert(vs.take(0) =~= Seq::<FieldModel>::empty());
    } else {
        let j = k - 1;
        lemma_fields_clean(vs, fs, j, config);
        lemma_field_clean(vs, fs, j, config);
        assert(vs.take(k).drop_last() =~= vs.take(j));
        assert(vs.take(k).last() == vs[j]);
        lemma_clean_elements_concat(fields_nodes(vs.take(j)), field_nodes(vs[j]), config);
    }
}

/// What a writable field writes are elements that come through the reader
/// as they are.
pub proof fn lemma_field_clean(
    vs: Seq<FieldModel>,
    fs: Seq<FieldShapeModel>,
    j: int,
    config: ParserConfig,
)
    requires
        fields_ok(fs),
        fields_conform(vs, fs),
        fields_writable(vs, config),
        0 <= j < vs.len(),
    ensures
        clean_elements(field_nodes(vs[j]), config),
    decreases fs, 0nat,
{
    let f = vs[j];
    assert(field_conforms(f, fs[j]));
    assert(field_shape_ok(fs, fs[j]));
    assert(field_writable(f, config));
    if is_omitted(f) {
    } else if f.flatten {
        match fs[j].shape {
            ShapeModel::Sequence(item) => {
                match f.value {
                    ValueModel::Sequence(items) => {
                        lemma_items_clean(items, *item, config);
                        assert(field_nodes(f) == items_nodes(items));
                    },
                    _ => {},
                }
            },
            _ => {},
        }
    } else {
        let node = NodeModel::Element { name: f.name, children: content_nodes(f.value) };
        assert(field_nodes(f) == seq![node]);
        match fs[j].shape {
            ShapeModel::Optional(inner) => {
                match f.value {
                    ValueModel::Optional(Some(x)) => {
                        lemma_content_clean(*x, *inner, config);
                        assert(content_nodes(f.value) == content_nodes(*x));
                    },
                    _ => {},
                }
            },
            _ => {
                lemma_content_clean(f.value, fs[j].shape, config);
            },
        }
        assert(clean(node, config));
    }
}

/// The round-trip law on text: where every tag that a value writes is a
/// name and every text that it writes is kept by the configuration,
/// reading the document that the value was written as gives the value
/// back.
pub proof fn theorem_text_round_trip(
    v: ValueModel,
    s: ShapeModel,
    config: ParserConfig,
    strict: bool,
)
    requires
        item_shape_ok(s),
        conforms(v, s),
        item_writable(v, config),
    ensures
        decode_text(s, render(document_events(v)), config, strict) == Ok::<ValueModel, Error>(v),
{
    lemma_item_round_trip(v, s, strict);
    lemma_item_clean(v, s, config);
    let root = item_nodes(v)[0];
    assert(item_nodes(v) =~= seq![root]);
    lemma_flatten_all_single(root);
    assert(document_events(v) == document(root));
    theorem_tokenize_render(root, config);
    theorem_events_round_trip(v, s, strict);
}

/// Writing again what was read from a document that was written gives the
/// same text, character for character.
pub proof fn theorem_text_rewrite(v: ValueModel, s: ShapeModel, config: ParserConfig, strict: bool)
    requires
        item_shape_ok(s),
        conforms(v, s),
        item_writable(v, config),
    ensures
        decode_text(s, render(document_events(v)), config, strict) is Ok,
        render(
            document_events(
                decode_text(s, render(document_events(v)), config, strict)->Ok_0,
            ),
        ) == render(document_events(v)),
{
    theorem_text_round_trip(v, s, config, strict);
}

} // verus!
