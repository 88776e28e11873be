//! From source text to a syntax tree.
//!
//! The parser of the `rnix` crate reads the text. Its tree is walked once, in
//! document order, and the walk is written down as a flat list of events. The
//! tree of this crate is then rebuilt from that list by verified code.
use crate::tree::{texts, views, Kind, Node, Tree};
use crate::tree::{lemma_texts_concat, lemma_texts_one, lemma_view_children};
use rnix::{NodeOrToken, WalkEvent};
use vstd::prelude::*;
use vstd::string::StringExecFns;
use vstd::string::StringSliceAdditionalSpecFns;

verus! {

/// One step of a walk over a syntax tree in document order.
#[derive(Debug)]
pub enum Event {
    /// An inner node begins; the name of its kind, such as `NODE_KEY`.
    Enter(String),
    /// The inner node that began last and has not ended yet ends.
    Leave,
    /// A token with its text.
    Token(String),
    /// The token that was just reported ends.
    TokenEnd,
}

/// The mathematical model of an [`Event`].
pub enum Mark {
    Enter(Seq<char>),
    Leave,
    Token(Seq<char>),
    TokenEnd,
}

impl View for Event {
    type V = Mark;

    open spec fn view(&self) -> Mark {
        match self {
            Event::Enter(name) => Mark::Enter(name@),
            Event::Leave => Mark::Leave,
            Event::Token(text) => Mark::Token(text@),
            Event::TokenEnd => Mark::TokenEnd,
        }
    }
}

/// The models of a list of events.
pub open spec fn marks_of(events: Seq<Event>) -> Seq<Mark> {
    Seq::new(events.len(), |i: int| events[i]@)
}

/// The text that a mark contributes to the source: that of a token, else none.
pub open spec fn mark_text(m: Mark) -> Seq<char> {
    match m {
        Mark::Token(s) => s,
        _ => Seq::empty(),
    }
}

/// The source text of the marks from position `from` up to position `to`.
pub open spec fn span_text(ms: Seq<Mark>, from: int, to: int) -> Seq<char>
    decreases to - from,
{
    if to <= from || from < 0 || to > ms.len() {
        Seq::empty()
    } else {
        span_text(ms, from, to - 1) + mark_text(ms[to - 1])
    }
}

/// The kind that a name of the parser stands for.
pub open spec fn kind_of_name(name: Seq<char>) -> Kind {
    if name == "NODE_ROOT"@ {
        Kind::Root
    } else if name == "NODE_KEY"@ {
        Kind::Key
    } else if name == "NODE_KEY_VALUE"@ {
        Kind::KeyValue
    } else if name == "NODE_ATTR_SET"@ {
        Kind::AttrSet
    } else if name == "NODE_LIST"@ {
        Kind::List
    } else if name == "NODE_WITH"@ {
        Kind::With
    } else if name == "NODE_IDENT"@ {
        Kind::Ident
    } else if name == "NODE_STRING"@ {
        Kind::Str
    } else if name == "NODE_LET_IN"@ {
        Kind::LetIn
    } else if name == "NODE_LAMBDA"@ {
        Kind::Lambda
    } else {
        Kind::Other
    }
}

/// The tree that begins at position `pos` of `ms`, with the position behind it.
pub open spec fn decode_node(ms: Seq<Mark>, pos: int) -> Option<(Tree, int)>
    decreases ms.len() - pos, 0int,
{
    if pos < 0 || pos >= ms.len() {
        None
    } else {
        match ms[pos] {
            Mark::Token(s) => if pos + 1 < ms.len() && ms[pos + 1] is TokenEnd {
                Some((Tree::Token(s), pos + 2))
            } else {
                None
            },
            Mark::Enter(name) => match decode_kids(ms, pos + 1, Seq::empty()) {
                Some((kids, end)) => Some((Tree::Inner(kind_of_name(name), kids), end)),
                None => None,
            },
            _ => None,
        }
    }
}

/// The trees `acc` followed by those that begin at position `pos` of `ms`, up
/// to the `Leave` mark that ends their parent, with the position behind it.
pub open spec fn decode_kids(ms: Seq<Mark>, pos: int, acc: Seq<Tree>) -> Option<(Seq<Tree>, int)>
    decreases ms.len() - pos, 1int,
{
    if pos < 0 || pos >= ms.len() {
        None
    } else if ms[pos] is Leave {
        Some((acc, pos + 1))
    } else {
        match decode_node(ms, pos) {
            Some((t, next)) => if pos < next <= ms.len() {
                decode_kids(ms, next, acc.push(t))
            } else {
                None
            },
            None => None,
        }
    }
}

/// The tree that a list of marks describes: the marks are those of exactly one
/// tree from the first to the last.
pub open spec fn tree_of(ms: Seq<Mark>) -> Option<Tree> {
    match decode_node(ms, 0) {
        Some((t, end)) => if end == ms.len() {
            Some(t)
        } else {
            None
        },
        None => None,
    }
}

/// Whether a text is short enough to be parsed: the parser counts the bytes of
/// a text in 32 bits.
pub open spec fn fits(text: Seq<char>) -> bool {
    vstd::utf8::encode_utf8(text).len() <= 0xffff_ffff
}

/// The walk of the syntax tree that `rnix` builds for a source text.
pub uninterp spec fn syntax_marks(text: Seq<char>) -> Seq<Mark>;

/// The syntax tree of a source text: the tree that the walk describes.
pub open spec fn syntax_tree(text: Seq<char>) -> Tree {
    tree_of(syntax_marks(text)).unwrap()
}

/// Calls `rnix::parse` and walks the tree it returns with rowan's
/// `SyntaxNode::preorder_with_tokens`. The kind of a node is reported by the
/// name of its `SyntaxKind`.
///
/// Believed, not proved:
/// - the events are the walk that [`syntax_marks`] names, so the same text
///   always gives the same events;
/// - they are the walk of one tree, each node entered and left once with its
///   children in between;
/// - the tree begins with the node `NODE_ROOT`, which the parser opens before
///   anything else;
/// - the texts of the tokens, one after the other, are the text that was
///   parsed: the parser keeps every character of its input in some token, also
///   where the input is not valid Nix.
///
/// A text of more bytes than 32 bits count is left out, because rowan's
/// `TextSize` panics on it. The parser descends into nested expressions by
/// recursion, so its stack bounds the depth of nesting that it can read.
#[verifier::external_body]
fn syntax_events(text: &str) -> (events: Vec<Event>)
    requires
        fits(text@),
    ensures
        marks_of(events@) == syntax_marks(text@),
        tree_of(marks_of(events@)) is Some,
        tree_of(marks_of(events@)).unwrap().is_kind(Kind::Root),
        span_text(marks_of(events@), 0, events@.len() as int) == text@,
{
    let mut events = Vec::new();
    for step in rnix::parse(text).node().preorder_with_tokens() {
        events.push(match step {
            WalkEvent::Enter(NodeOrToken::Node(n)) => Event::Enter(format!("{:?}", n.kind())),
            WalkEvent::Enter(NodeOrToken::Token(t)) => Event::Token(t.text().to_string()),
            WalkEvent::Leave(NodeOrToken::Node(_)) => Event::Leave,
            WalkEvent::Leave(NodeOrToken::Token(_)) => Event::TokenEnd,
        });
    }
    events
}

/// Whether two strings hold the same text.
pub fn same_text(a: &str, b: &str) -> (r: bool)
    ensures
        r == (a@ == b@),
{
    let x = String::from_str(a);
    let y = String::from_str(b);
    x == y
}

/// The kind that a name of the parser stands for.
pub fn kind_from_name(name: &str) -> (kind: Kind)
    ensures
        kind == kind_of_name(name@),
{
    if same_text(name, "NODE_ROOT") {
        Kind::Root
    } else if same_text(name, "NODE_KEY") {
        Kind::Key
    } else if same_text(name, "NODE_KEY_VALUE") {
        Kind::KeyValue
    } else if same_text(name, "NODE_ATTR_SET") {
        Kind::AttrSet
    } else if same_text(name, "NODE_LIST") {
        Kind::List
    } else if same_text(name, "NODE_WITH") {
        Kind::With
    } else if same_text(name, "NODE_IDENT") {
        Kind::Ident
    } else if same_text(name, "NODE_STRING") {
        Kind::Str
    } else if same_text(name, "NODE_LET_IN") {
        Kind::LetIn
    } else if same_text(name, "NODE_LAMBDA") {
        Kind::Lambda
    } else {
        Kind::Other
    }
}

/// Text spans that meet add up.
pub proof fn lemma_span_split(ms: Seq<Mark>, from: int, mid: int, to: int)
    requires
        0 <= from <= mid <= to <= ms.len(),
    ensures
        span_text(ms, from, to) == span_text(ms, from, mid) + span_text(ms, mid, to),
    decreases to - mid,
{
    if mid == to {
        assert(span_text(ms, from, to) =~= span_text(ms, from, mid) + span_text(ms, mid, to));
    } else {
        lemma_span_split(ms, from, mid, to - 1);
        assert(span_text(ms, from, to) =~= span_text(ms, from, mid) + span_text(ms, mid, to));
    }
}

/// A decoded tree ends behind its start, within the marks, and its text is the
/// text of the marks that it was decoded from.
pub proof fn lemma_decode_node_text(ms: Seq<Mark>, pos: int)
    requires
        decode_node(ms, pos) is Some,
    ensures
        0 <= pos < decode_node(ms, pos).unwrap().1 <= ms.len(),
        decode_node(ms, pos).unwrap().0.text() == span_text(ms, pos, decode_node(ms, pos).unwrap().1),
    decreases ms.len() - pos, 0int,
{
    match ms[pos] {
        Mark::Token(s) => {
            reveal_with_fuel(span_text, 3);
            assert(span_text(ms, pos, pos + 2) =~= s);
        },
        Mark::Enter(name) => {
            lemma_decode_kids_text(ms, pos + 1, Seq::empty());
            let end = decode_node(ms, pos).unwrap().1;
            lemma_span_split(ms, pos, pos + 1, end);
            reveal_with_fuel(span_text, 2);
            assert(span_text(ms, pos, pos + 1) =~= Seq::<char>::empty());
            assert(texts(Seq::<Tree>::empty()) =~= Seq::<char>::empty());
            assert(decode_node(ms, pos).unwrap().0.text() =~= span_text(ms, pos, end));
        },
        _ => {},
    }
}

/// Decoded children end behind their start, within the marks, and their text
/// is that of the trees before them followed by the text of the marks that they
/// were decoded from.
pub proof fn lemma_decode_kids_text(ms: Seq<Mark>, pos: int, acc: Seq<Tree>)
    requires
        decode_kids(ms, pos, acc) is Some,
    ensures
        0 <= pos < decode_kids(ms, pos, acc).unwrap().1 <= ms.len(),
        texts(decode_kids(ms, pos, acc).unwrap().0) == texts(acc) + span_text(
            ms,
            pos,
            decode_kids(ms, pos, acc).unwrap().1,
        ),
    decreases ms.len() - pos, 1int,
{
    if ms[pos] is Leave {
        reveal_with_fuel(span_text, 2);
        assert(span_text(ms, pos, pos + 1) =~= Seq::<char>::empty());
        assert(texts(acc) + span_text(ms, pos, pos + 1) =~= texts(acc));
    } else {
        let (t, next) = decode_node(ms, pos).unwrap();
        lemma_decode_node_text(ms, pos);
        lemma_decode_kids_text(ms, next, acc.push(t));
        let end = decode_kids(ms, pos, acc).unwrap().1;
        lemma_span_split(ms, pos, next, end);
        assert(acc.push(t) =~= acc + seq![t]);
        lemma_texts_concat(acc, seq![t]);
        lemma_texts_one(t);
        assert(texts(acc.push(t)) + span_text(ms, next, end) =~= texts(acc) + span_text(
            ms,
            pos,
            end,
        ));
    }
}

/// Rebuilds the tree that begins at position `pos` of `events`.
pub fn build_node(events: &Vec<Event>, pos: usize) -> (r: Option<(Node, usize)>)
    ensures
        match r {
            Some((node, end)) => decode_node(marks_of(events@), pos as int) == Some(
                (node@, end as int),
            ) && pos < end <= events@.len(),
            None => decode_node(marks_of(events@), pos as int) is None,
        },
    decreases events@.len() - pos, 0int,
{
    if pos >= events.len() {
        return None;
    }
    match &events[pos] {
        Event::Token(text) => {
            if pos + 1 < events.len() {
                match &events[pos + 1] {
                    Event::TokenEnd => Some((Node::Token { text: text.clone() }, pos + 2)),
                    _ => None,
                }
            } else {
                None
            }
        },
        Event::Enter(name) => {
            match build_kids(events, pos + 1) {
                Some((children, end)) => {
                    let kind = kind_from_name(name.as_str());
                    proof {
                        lemma_view_children(kind, children);
                    }
                    Some((Node::Inner { kind, children }, end))
                },
                None => None,
            }
        },
        _ => None,
    }
}

/// Rebuilds the trees that begin at position `pos` of `events`, up to the
/// `Leave` event that ends their parent.
pub fn build_kids(events: &Vec<Event>, pos: usize) -> (r: Option<(Vec<Node>, usize)>)
    ensures
        match r {
            Some((nodes, end)) => decode_kids(marks_of(events@), pos as int, Seq::empty())
                == Some((views(nodes@), end as int)) && pos < end <= events@.len(),
            None => decode_kids(marks_of(events@), pos as int, Seq::empty()) is None,
        },
    decreases events@.len() - pos, 1int,
{
    let ghost ms = marks_of(events@);
    let mut nodes: Vec<Node> = Vec::new();
    let mut at: usize = pos;
    assert(views(nodes@) =~= Seq::<Tree>::empty());
    loop
        invariant
            ms == marks_of(events@),
            pos <= at,
            decode_kids(ms, pos as int, Seq::empty()) == decode_kids(ms, at as int, views(nodes@)),
        decreases events@.len() - at,
    {
        if at >= events.len() {
            return None;
        }
        if let Event::Leave = &events[at] {
            return Some((nodes, at + 1));
        }
        match build_node(events, at) {
            None => {
                return None;
            },
            Some((node, next)) => {
                let ghost before = nodes@;
                nodes.push(node);
                assert(views(nodes@) =~= views(before).push(node@));
                at = next;
            },
        }
    }
}

/// Rebuilds the one tree that a list of events describes, if they describe one.
pub fn build_tree(events: &Vec<Event>) -> (r: Option<Node>)
    ensures
        match r {
            Some(node) => tree_of(marks_of(events@)) == Some(node@),
            None => tree_of(marks_of(events@)) is None,
        },
{
    match build_node(events, 0) {
        Some((node, end)) => if end == events.len() {
            Some(node)
        } else {
            None
        },
        None => None,
    }
}

/// Parses a source text into its syntax tree; `None` where the text is too
/// long to be parsed.
///
/// The tree is the one that [`syntax_tree`] names, and its text is the source
/// text, character for character: writing out a tree that was parsed and not
/// edited gives back what was parsed.
pub fn parse_tree(text: &str) -> (r: Option<Node>)
    ensures
        r is Some == fits(text@),
        r is Some ==> r.unwrap()@ == syntax_tree(text@) && r.unwrap()@.text() == text@
            && r.unwrap()@.is_kind(Kind::Root),
{
    if text.as_bytes().len() > 0xffff_ffff {
        return None;
    }
    let events = syntax_events(text);
    match build_tree(&events) {
        Some(node) => {
            proof {
                lemma_decode_node_text(marks_of(events@), 0);
            }
            Some(node)
        },
        None => vstd::pervasive::unreached(),
    }
}

} // verus!
