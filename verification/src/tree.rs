//! XML as the codec sees it: a stream of structural events, and the element
//! tree that a well-nested stream spells out.

use crate::error::Error;
use vstd::prelude::*;

verus! {

/// A structural event of an XML document.
#[derive(Debug, PartialEq, Eq)]
pub enum XmlEvent {
    /// The start of the document (the XML declaration).
    StartDocument,
    /// A start tag.
    StartElement { name: String },
    /// An end tag.
    EndElement { name: String },
    /// A run of text, with entities already resolved.
    Characters(String),
}

/// A node of an element tree. Elements have no attributes.
#[derive(Debug, PartialEq, Eq)]
pub enum Node {
    Element { name: String, children: Vec<Node> },
    Text(String),
}

/// The mathematical model of an [`XmlEvent`].
pub ghost enum EventModel {
    StartDocument,
    StartElement { name: Seq<char> },
    EndElement { name: Seq<char> },
    Characters(Seq<char>),
}

/// The mathematical model of a [`Node`].
pub ghost enum NodeModel {
    Element { name: Seq<char>, children: Seq<NodeModel> },
    Text(Seq<char>),
}

impl View for XmlEvent {
    type V = EventModel;

    open spec fn view(&self) -> EventModel {
        match self {
            XmlEvent::StartDocument => EventModel::StartDocument,
            XmlEvent::StartElement { name } => EventModel::StartElement { name: name@ },
            XmlEvent::EndElement { name } => EventModel::EndElement { name: name@ },
            XmlEvent::Characters(text) => EventModel::Characters(text@),
        }
    }
}

/// The models of a sequence of events, in order.
pub open spec fn events_model(es: Seq<XmlEvent>) -> Seq<EventModel> {
    Seq::new(es.len(), |i: int| es[i]@)
}

/// The model of a node.
pub open spec fn node_model(n: Node) -> NodeModel
    decreases n,
{
    match n {
        Node::Element { name, children } => NodeModel::Element {
            name: name@,
            children: nodes_model(children@),
        },
        Node::Text(text) => NodeModel::Text(text@),
    }
}

/// The models of a sequence of nodes, in order.
pub open spec fn nodes_model(ns: Seq<Node>) -> Seq<NodeModel>
    decreases ns,
{
    Seq::new(
        ns.len(),
        |i: int|
            if 0 <= i < ns.len() {
                node_model(ns[i])
            } else {
                NodeModel::Text(Seq::empty())
            },
    )
}

impl View for Node {
    type V = NodeModel;

    open spec fn view(&self) -> NodeModel {
        node_model(*self)
    }
}

/// The events that spell out a node: for an element its start tag, its
/// children in order and its end tag; for text one run of characters.
pub open spec fn flatten(n: NodeModel) -> Seq<EventModel>
    decreases n,
{
    match n {
        NodeModel::Element { name, children } => seq![EventModel::StartElement { name }]
            + flatten_all(children) + seq![EventModel::EndElement { name }],
        NodeModel::Text(text) => seq![EventModel::Characters(text)],
    }
}

/// The events that spell out a sequence of sibling nodes.
pub open spec fn flatten_all(ns: Seq<NodeModel>) -> Seq<EventModel>
    decreases ns,
{
    if ns.len() == 0 {
        Seq::empty()
    } else {
        flatten_all(ns.drop_last()) + flatten(ns.last())
    }
}

/// The events of a whole document with the given root.
pub open spec fn document(root: NodeModel) -> Seq<EventModel> {
    seq![EventModel::StartDocument] + flatten(root)
}

/// The siblings read from `events[pos..]`, up to the first end tag that
/// closes none of them or to the end of the events, with the position at
/// which reading stopped.
///
/// Fails with `UnexpectedEof` where an element is never closed, and with
/// `MalformedXml` where an element is closed under another name or a
/// document start stands among the content.
pub open spec fn read_siblings(events: Seq<EventModel>, pos: int) -> Result<
    (Seq<NodeModel>, int),
    Error,
>
    decreases events.len() - pos,
{
    if pos < 0 || pos >= events.len() {
        Ok((Seq::empty(), pos))
    } else {
        match events[pos] {
            EventModel::EndElement { .. } => Ok((Seq::empty(), pos)),
            EventModel::StartDocument => Err(Error::MalformedXml),
            EventModel::Characters(text) => match read_siblings(events, pos + 1) {
                Err(e) => Err(e),
                Ok((rest, end)) => Ok((seq![NodeModel::Text(text)] + rest, end)),
            },
            EventModel::StartElement { name } => match read_siblings(events, pos + 1) {
                Err(e) => Err(e),
                Ok((children, close)) => if close <= pos || close >= events.len() {
                    Err(Error::UnexpectedEof)
                } else if events[close] != (EventModel::EndElement { name }) {
                    Err(Error::MalformedXml)
                } else {
                    match read_siblings(events, close + 1) {
                        Err(e) => Err(e),
                        Ok((rest, end)) => Ok(
                            (seq![NodeModel::Element { name, children }] + rest, end),
                        ),
                    }
                },
            },
        }
    }
}

/// The root element of a document given as events: a document start, then
/// exactly one element.
///
/// Fails with `UnexpectedEof` where the events end before the root element
/// is complete, and with `MalformedXml` where they do not begin with a
/// document start, or hold text or a second element at the top level, or an
/// end tag that closes nothing.
pub open spec fn read_document(events: Seq<EventModel>) -> Result<NodeModel, Error> {
    if events.len() == 0 {
        Err(Error::UnexpectedEof)
    } else if events[0] != EventModel::StartDocument {
        Err(Error::MalformedXml)
    } else {
        match read_siblings(events, 1) {
            Err(e) => Err(e),
            Ok((nodes, end)) => if end < events.len() {
                Err(Error::MalformedXml)
            } else if nodes.len() == 0 {
                Err(Error::UnexpectedEof)
            } else if nodes.len() > 1 || nodes[0] is Text {
                Err(Error::MalformedXml)
            } else {
                Ok(nodes[0])
            },
        }
    }
}

/// The names of the elements that a sequence of events leaves open,
/// outermost first. `None` where an end tag closes nothing, or closes an
/// element under another name.
pub open spec fn open_after(events: Seq<EventModel>) -> Option<Seq<Seq<char>>>
    decreases events.len(),
{
    if events.len() == 0 {
        Some(Seq::empty())
    } else {
        match open_after(events.drop_last()) {
            None => None,
            Some(stack) => match events.last() {
                EventModel::StartElement { name } => Some(stack.push(name)),
                EventModel::EndElement { name } => if stack.len() > 0 && stack.last() == name {
                    Some(stack.drop_last())
                } else {
                    None
                },
                _ => Some(stack),
            },
        }
    }
}

/// The events of a single node, taken as a sequence of one.
pub proof fn lemma_flatten_all_single(n: NodeModel)
    ensures
        flatten_all(seq![n]) == flatten(n),
{
    assert(seq![n].drop_last() =~= Seq::<NodeModel>::empty());
    assert(flatten_all(Seq::<NodeModel>::empty()) =~= Seq::<EventModel>::empty());
    assert(flatten_all(seq![n]) =~= flatten(n));
}

/// The events of two sequences of nodes, one behind the other.
pub proof fn lemma_flatten_all_concat(a: Seq<NodeModel>, b: Seq<NodeModel>)
    ensures
        flatten_all(a + b) == flatten_all(a) + flatten_all(b),
    decreases b.len(),
{
    if b.len() == 0 {
        assert(a + b =~= a);
        assert(flatten_all(a) + flatten_all(b) =~= flatten_all(a));
    } else {
        lemma_flatten_all_concat(a, b.drop_last());
        assert((a + b).drop_last() =~= a + b.drop_last());
        assert((a + b).last() == b.last());
        assert(flatten_all(a + b) =~= flatten_all(a) + flatten_all(b));
    }
}

/// The elements that are open behind one more event.
pub proof fn lemma_open_after_push(events: Seq<EventModel>, e: EventModel)
    ensures
        open_after(events.push(e)) == match open_after(events) {
            None => None,
            Some(stack) => match e {
                EventModel::StartElement { name } => Some(stack.push(name)),
                EventModel::EndElement { name } => if stack.len() > 0 && stack.last() == name {
                    Some(stack.drop_last())
                } else {
                    None
                },
                _ => Some(stack),
            },
        },
{
    assert(events.push(e).drop_last() =~= events);
}

/// Every tag that a node opens it closes, once and under its own name:
/// behind the events of a node the same elements are open as before them.
pub proof fn lemma_node_balanced(pre: Seq<EventModel>, n: NodeModel)
    requires
        open_after(pre) is Some,
    ensures
        open_after(pre + flatten(n)) == open_after(pre),
    decreases n,
{
    let stack = open_after(pre)->0;
    match n {
        NodeModel::Text(text) => {
            lemma_open_after_push(pre, EventModel::Characters(text));
            assert(pre + flatten(n) =~= pre.push(EventModel::Characters(text)));
        },
        NodeModel::Element { name, children } => {
            let opened = pre.push(EventModel::StartElement { name });
            lemma_open_after_push(pre, EventModel::StartElement { name });
            lemma_nodes_balanced(opened, children);
            let inside = opened + flatten_all(children);
            lemma_open_after_push(inside, EventModel::EndElement { name });
            assert(stack.push(name).drop_last() =~= stack);
            assert(pre + flatten(n) =~= inside.push(EventModel::EndElement { name }));
        },
    }
}

/// Behind the events of sibling nodes the same elements are open as
/// before them.
pub proof fn lemma_nodes_balanced(pre: Seq<EventModel>, ns: Seq<NodeModel>)
    requires
        open_after(pre) is Some,
    ensures
        open_after(pre + flatten_all(ns)) == open_after(pre),
    decreases ns,
{
    if ns.len() == 0 {
        assert(pre + flatten_all(ns) =~= pre);
    } else {
        lemma_nodes_balanced(pre, ns.drop_last());
        lemma_node_balanced(pre + flatten_all(ns.drop_last()), ns.last());
        assert(pre + flatten_all(ns) =~= pre + flatten_all(ns.drop_last()) + flatten(ns.last()));
    }
}

/// The siblings `acc`, followed by what a reading of further siblings gave.
pub open spec fn extend_siblings(
    acc: Seq<NodeModel>,
    r: Result<(Seq<NodeModel>, int), Error>,
) -> Result<(Seq<NodeModel>, int), Error> {
    match r {
        Err(e) => Err(e),
        Ok((rest, end)) => Ok((acc + rest, end)),
    }
}

/// Whether what was read from events is what [`read_siblings`] describes.
pub open spec fn siblings_read(
    r: Result<(Vec<Node>, usize), Error>,
    expected: Result<(Seq<NodeModel>, int), Error>,
) -> bool {
    match r {
        Ok((nodes, end)) => expected == Ok::<(Seq<NodeModel>, int), Error>(
            (nodes_model(nodes@), end as int),
        ),
        Err(e) => expected == Err::<(Seq<NodeModel>, int), Error>(e),
    }
}

/// Whether a node that was read is what a specification describes.
pub open spec fn node_read(r: Result<Node, Error>, expected: Result<NodeModel, Error>) -> bool {
    match r {
        Ok(node) => expected == Ok::<NodeModel, Error>(node@),
        Err(e) => expected == Err::<NodeModel, Error>(e),
    }
}

/// Reads siblings from `events[pos..]`, up to the first end tag that closes
/// none of them or to the end of the events.
fn read_nodes(events: &Vec<XmlEvent>, pos: usize) -> (r: Result<(Vec<Node>, usize), Error>)
    requires
        pos <= events.len(),
    ensures
        siblings_read(r, read_siblings(events_model(events@), pos as int)),
        r is Ok ==> pos <= r->Ok_0.1 <= events.len(),
    decreases events.len() - pos,
{
    let ghost model = events_model(events@);
    let mut nodes: Vec<Node> = Vec::new();
    let mut p: usize = pos;
    proof {
        assert(nodes_model(nodes@) =~= Seq::<NodeModel>::empty());
        match read_siblings(model, pos as int) {
            Ok((rest, end)) => assert(Seq::<NodeModel>::empty() + rest =~= rest),
            Err(_) => {},
        }
    }
    while p < events.len()
        invariant
            pos <= p <= events.len(),
            model == events_model(events@),
            read_siblings(model, pos as int) == extend_siblings(
                nodes_model(nodes@),
                read_siblings(model, p as int),
            ),
        decreases events.len() - p,
    {
        let ghost acc = nodes_model(nodes@);
        assert(model[p as int] == events[p as int]@);
        match &events[p] {
            XmlEvent::EndElement { .. } => {
                proof {
                    assert(acc + Seq::<NodeModel>::empty() =~= acc);
                }
                return Ok((nodes, p));
            },
            XmlEvent::StartDocument => {
                return Err(Error::MalformedXml);
            },
            XmlEvent::Characters(text) => {
                nodes.push(Node::Text(text.clone()));
                proof {
                    let node = NodeModel::Text(text@);
                    assert(nodes_model(nodes@) =~= acc.push(node));
                    match read_siblings(model, p + 1) {
                        Ok((rest, end)) => assert(acc + (seq![node] + rest) =~= acc.push(node)
                            + rest),
                        Err(_) => {},
                    }
                }
                p += 1;
            },
            XmlEvent::StartElement { name } => {
                let (children, close) = read_nodes(events, p + 1)?;
                if close >= events.len() {
                    return Err(Error::UnexpectedEof);
                }
                assert(model[close as int] == events[close as int]@);
                let closes = match &events[close] {
                    XmlEvent::EndElement { name: closing } => *closing == *name,
                    _ => false,
                };
                if !closes {
                    return Err(Error::MalformedXml);
                }
                nodes.push(Node::Element { name: name.clone(), children });
                proof {
                    let node = NodeModel::Element {
                        name: name@,
                        children: nodes_model(children@),
                    };
                    assert(nodes_model(nodes@) =~= acc.push(node));
                    match read_siblings(model, close + 1) {
                        Ok((rest, end)) => assert(acc + (seq![node] + rest) =~= acc.push(node)
                            + rest),
                        Err(_) => {},
                    }
                }
                p = close + 1;
            },
        }
    }
    proof {
        assert(nodes_model(nodes@) + Seq::<NodeModel>::empty() =~= nodes_model(nodes@));
    }
    Ok((nodes, p))
}

/// Reads the root element of a document given as events.
pub fn read_tree(events: &Vec<XmlEvent>) -> (r: Result<Node, Error>)
    ensures
        node_read(r, read_document(events_model(events@))),
{
    let ghost model = events_model(events@);
    if events.len() == 0 {
        return Err(Error::UnexpectedEof);
    }
    assert(model[0] == events[0]@);
    match &events[0] {
        XmlEvent::StartDocument => {},
        _ => {
            return Err(Error::MalformedXml);
        },
    }
    let (mut nodes, end) = read_nodes(events, 1)?;
    if end < events.len() {
        return Err(Error::MalformedXml);
    }
    if nodes.len() == 0 {
        return Err(Error::UnexpectedEof);
    }
    if nodes.len() > 1 {
        return Err(Error::MalformedXml);
    }
    let ghost first = nodes_model(nodes@)[0];
    match nodes.pop() {
        Some(Node::Element { name, children }) => {
            let root = Node::Element { name, children };
            assert(root@ == first);
            Ok(root)
        },
        _ => Err(Error::MalformedXml),
    }
}

/// The events of a sequence of nodes, first node first.
pub proof fn lemma_flatten_all_first(ns: Seq<NodeModel>)
    requires
        ns.len() > 0,
    ensures
        flatten_all(ns) == flatten(ns[0]) + flatten_all(ns.drop_first()),
{
    lemma_flatten_all_single(ns[0]);
    lemma_flatten_all_concat(seq![ns[0]], ns.drop_first());
    assert(seq![ns[0]] + ns.drop_first() =~= ns);
}

/// Reading gives back the siblings that a stream spells out, wherever in
/// the stream they stand, as long as what follows them is an end tag or
/// the end of the stream.
pub proof fn lemma_read_flattened(pre: Seq<EventModel>, ns: Seq<NodeModel>, post: Seq<EventModel>)
    requires
        post.len() == 0 || post[0] is EndElement,
    ensures
        read_siblings(pre + flatten_all(ns) + post, pre.len() as int) == Ok::<
            (Seq<NodeModel>, int),
            Error,
        >((ns, (pre.len() + flatten_all(ns).len()) as int)),
    decreases ns,
{
    let events = pre + flatten_all(ns) + post;
    let pos = pre.len() as int;
    if ns.len() == 0 {
        assert(flatten_all(ns) =~= Seq::<EventModel>::empty());
        assert(ns =~= Seq::<NodeModel>::empty());
        if post.len() > 0 {
            assert(events[pos] == post[0]);
        }
    } else {
        let first = ns[0];
        let rest = ns.drop_first();
        lemma_flatten_all_first(ns);
        match first {
            NodeModel::Text(text) => {
                let passed = pre.push(EventModel::Characters(text));
                assert(events =~= passed + flatten_all(rest) + post);
                assert(events[pos] == EventModel::Characters(text));
                lemma_read_flattened(passed, rest, post);
                assert(seq![first] + rest =~= ns);
                assert(flatten(first).len() == 1);
                assert(passed.len() + flatten_all(rest).len() == pre.len() + flatten_all(ns).len());
                assert(read_siblings(events, pos + 1) == Ok::<(Seq<NodeModel>, int), Error>(
                    (rest, (pre.len() + flatten_all(ns).len()) as int),
                ));
            },
            NodeModel::Element { name, children } => {
                let open = EventModel::StartElement { name };
                let close = EventModel::EndElement { name };
                let opened = pre.push(open);
                let closing = seq![close] + flatten_all(rest) + post;
                assert(events =~= opened + flatten_all(children) + closing);
                assert(events[pos] == open);
                lemma_read_flattened(opened, children, closing);
                let at = (opened.len() + flatten_all(children).len()) as int;
                assert(read_siblings(events, pos + 1) == Ok::<(Seq<NodeModel>, int), Error>(
                    (children, at),
                ));
                assert(events[at] == close);
                assert(at < events.len());
                let passed = opened + flatten_all(children) + seq![close];
                assert(events =~= passed + flatten_all(rest) + post);
                lemma_read_flattened(passed, rest, post);
                assert(seq![first] + rest =~= ns);
                assert(flatten(first).len() == flatten_all(children).len() + 2);
                assert(passed.len() == at + 1);
                assert(passed.len() + flatten_all(rest).len() == pre.len() + flatten_all(ns).len());
                assert(read_siblings(events, at + 1) == Ok::<(Seq<NodeModel>, int), Error>(
                    (rest, (pre.len() + flatten_all(ns).len()) as int),
                ));
            },
        }
    }
}

/// Reading the events of a document gives back its root element.
pub proof fn lemma_read_document(root: NodeModel)
    requires
        root is Element,
    ensures
        read_document(document(root)) == Ok::<NodeModel, Error>(root),
{
    let pre = seq![EventModel::StartDocument];
    lemma_flatten_all_single(root);
    lemma_read_flattened(pre, seq![root], Seq::empty());
    assert(pre + flatten_all(seq![root]) + Seq::<EventModel>::empty() =~= document(root));
}

} // verus!
