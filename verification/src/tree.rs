//! The lossless syntax tree that every operation of this crate reads and edits.
//!
//! A tree is made of tokens, which carry source text, and of inner nodes, which
//! carry a kind and an ordered list of children. Whitespace, comments and
//! punctuation are ordinary tokens among the children of a node, so the text of a
//! tree is the concatenation of its tokens in order.
use vstd::prelude::*;

verus! {

/// The kinds of inner node that path resolution and editing tell apart.
#[derive(Clone, Copy, Debug, PartialEq, Eq, Structural)]
pub enum Kind {
    /// The node that holds a whole parsed text.
    Root,
    /// A dotted key, `a.b.c`, whose children of kind `Ident` or `Str` are its
    /// segments.
    Key,
    /// An entry of an attribute set: a key, `=`, a value and `;`.
    KeyValue,
    /// A brace-delimited attribute set.
    AttrSet,
    /// A bracket-delimited list.
    List,
    /// `with <namespace>; <body>`.
    With,
    /// A bare identifier.
    Ident,
    /// A quoted string.
    Str,
    /// `let <bindings> in <body>`.
    LetIn,
    /// A function, `<argument>: <body>`.
    Lambda,
    /// Any other kind of node.
    Other,
}

/// The mathematical model of a syntax tree.
pub enum Tree {
    /// A token with its source text.
    Token(Seq<char>),
    /// An inner node with its kind and children.
    Inner(Kind, Seq<Tree>),
}

/// The concatenated source text of a sequence of trees.
pub open spec fn texts(ts: Seq<Tree>) -> Seq<char>
    decreases ts,
{
    if ts.len() == 0 {
        Seq::empty()
    } else {
        texts(ts.drop_last()) + ts.last().text()
    }
}

impl Tree {
    /// The source text that this tree stands for.
    pub open spec fn text(self) -> Seq<char>
        decreases self,
    {
        match self {
            Tree::Token(s) => s,
            Tree::Inner(_, children) => texts(children),
        }
    }

    /// The children of an inner node; a token has none.
    pub open spec fn kids(self) -> Seq<Tree> {
        match self {
            Tree::Token(_) => Seq::empty(),
            Tree::Inner(_, children) => children,
        }
    }

    /// Whether this is an inner node of kind `k`.
    pub open spec fn is_kind(self, k: Kind) -> bool {
        match self {
            Tree::Token(_) => false,
            Tree::Inner(kind, _) => kind == k,
        }
    }

    /// Whether this is an inner node.
    pub open spec fn is_node(self) -> bool {
        self is Inner
    }

    /// This node with `kids` for its children; a token as it is.
    pub open spec fn with_kids(self, kids: Seq<Tree>) -> Tree {
        match self {
            Tree::Token(_) => self,
            Tree::Inner(kind, _) => Tree::Inner(kind, kids),
        }
    }

    /// This node with its children from index `from` up to index `to` replaced
    /// by `new`.
    pub open spec fn splice(self, from: int, to: int, new: Seq<Tree>) -> Tree {
        self.with_kids(
            self.kids().subrange(0, from) + new + self.kids().subrange(to, self.kids().len() as int),
        )
    }

    /// Whether `path`, a list of child indices, leads to a subtree of this tree.
    pub open spec fn has(self, path: Seq<int>) -> bool
        decreases path.len(),
    {
        if path.len() == 0 {
            true
        } else {
            0 <= path[0] < self.kids().len() && self.kids()[path[0]].has(path.skip(1))
        }
    }

    /// The subtree that `path` leads to.
    pub open spec fn at(self, path: Seq<int>) -> Tree
        recommends
            self.has(path),
        decreases path.len(),
    {
        if path.len() == 0 {
            self
        } else {
            self.kids()[path[0]].at(path.skip(1))
        }
    }

    /// This tree with the subtree at `path` replaced by `sub`.
    pub open spec fn put(self, path: Seq<int>, sub: Tree) -> Tree
        recommends
            self.has(path),
        decreases path.len(),
    {
        if path.len() == 0 {
            sub
        } else {
            match self {
                Tree::Token(_) => self,
                Tree::Inner(kind, children) => if 0 <= path[0] < children.len() {
                    Tree::Inner(
                        kind,
                        children.update(path[0], children[path[0]].put(path.skip(1), sub)),
                    )
                } else {
                    self
                },
            }
        }
    }
}

/// A path as a list of child indices.
pub open spec fn ints(p: Seq<usize>) -> Seq<int> {
    Seq::new(p.len(), |i: int| p[i] as int)
}

/// A syntax tree as the program holds it.
#[derive(Debug)]
pub enum Node {
    /// A token with its source text.
    Token { text: String },
    /// An inner node with its kind and children.
    Inner { kind: Kind, children: Vec<Node> },
}

/// The models of a sequence of nodes.
pub open spec fn views(nodes: Seq<Node>) -> Seq<Tree> {
    Seq::new(nodes.len(), |i: int| nodes[i]@)
}

impl View for Node {
    type V = Tree;

    open spec fn view(&self) -> Tree
        decreases self,
    {
        match self {
            Node::Token { text } => Tree::Token(text@),
            Node::Inner { kind, children } => Tree::Inner(
                *kind,
                Seq::new(
                    children@.len(),
                    |i: int|
                        if 0 <= i < children@.len() {
                            children@[i].view()
                        } else {
                            Tree::Token(Seq::empty())
                        },
                ),
            ),
        }
    }
}

/// The children of a node as the view shows them are the views of its children.
pub proof fn lemma_view_children(kind: Kind, children: Vec<Node>)
    ensures
        (Node::Inner { kind, children })@ == Tree::Inner(kind, views(children@)),
{
    let n = Node::Inner { kind, children };
    assert(n@.kids() =~= views(children@));
}

/// The text of a sequence is the text of its parts, one after the other.
pub proof fn lemma_texts_concat(a: Seq<Tree>, b: Seq<Tree>)
    ensures
        texts(a + b) == texts(a) + texts(b),
    decreases b.len(),
{
    if b.len() == 0 {
        assert(a + b =~= a);
    } else {
        lemma_texts_concat(a, b.drop_last());
        assert((a + b).drop_last() =~= a + b.drop_last());
        assert((a + b).last() == b.last());
        assert(texts(a + b) =~= texts(a) + texts(b));
    }
}

/// The text of a one-element sequence is the text of that element.
pub proof fn lemma_texts_one(t: Tree)
    ensures
        texts(seq![t]) == t.text(),
{
    reveal_with_fuel(texts, 2);
    assert(seq![t].drop_last() =~= Seq::<Tree>::empty());
    assert(seq![t].last() == t);
    assert(texts(seq![t]) =~= t.text());
}

/// Following a path and then another is following the two joined.
pub proof fn lemma_at_join(t: Tree, p: Seq<int>, q: Seq<int>)
    requires
        t.has(p),
        t.at(p).has(q),
    ensures
        t.has(p + q),
        t.at(p + q) == t.at(p).at(q),
    decreases p.len(),
{
    if p.len() == 0 {
        assert(p + q =~= q);
    } else {
        lemma_at_join(t.kids()[p[0] as int], p.skip(1), q);
        assert((p + q).skip(1) =~= p.skip(1) + q);
    }
}

/// A path that leads somewhere leads there by way of each of its beginnings.
pub proof fn lemma_has_split(t: Tree, p: Seq<int>, q: Seq<int>)
    requires
        t.has(p + q),
    ensures
        t.has(p),
        t.at(p).has(q),
        t.at(p + q) == t.at(p).at(q),
    decreases p.len(),
{
    if p.len() == 0 {
        assert(p + q =~= q);
    } else {
        assert((p + q).skip(1) =~= p.skip(1) + q);
        assert((p + q)[0] == p[0]);
        lemma_has_split(t.kids()[p[0]], p.skip(1), q);
    }
}

/// Appends clones of `src[from..to]` to `out`.
pub fn clone_range(src: &Vec<Node>, from: usize, to: usize, out: &mut Vec<Node>)
    requires
        from <= to <= src@.len(),
    ensures
        views(final(out)@) == views(old(out)@) + views(src@).subrange(from as int, to as int),
    decreases src,
{
    let mut i: usize = from;
    while i < to
        invariant
            from <= i <= to <= src@.len(),
            views(out@) == views(old(out)@) + views(src@).subrange(from as int, i as int),
        decreases to - i,
    {
        let ghost before = out@;
        let copy = src[i].clone_tree();
        out.push(copy);
        assert(views(out@) =~= views(before).push(src@[i as int]@));
        assert(views(out@) =~= views(old(out)@) + views(src@).subrange(from as int, i + 1));
        i += 1;
    }
}

impl Node {
    /// Whether this is an inner node of kind `k`.
    pub fn is_kind(&self, k: Kind) -> (r: bool)
        ensures
            r == self@.is_kind(k),
    {
        match self {
            Node::Token { .. } => false,
            Node::Inner { kind, .. } => *kind == k,
        }
    }

    /// Whether this is an inner node.
    pub fn is_node(&self) -> (r: bool)
        ensures
            r == self@.is_node(),
    {
        match self {
            Node::Token { .. } => false,
            Node::Inner { .. } => true,
        }
    }

    /// The number of children; a token has none.
    pub fn arity(&self) -> (n: usize)
        ensures
            n == self@.kids().len(),
    {
        match self {
            Node::Token { .. } => 0,
            Node::Inner { children, .. } => children.len(),
        }
    }

    /// The child at index `i`.
    pub fn child(&self, i: usize) -> (c: &Node)
        requires
            i < self@.kids().len(),
        ensures
            c@ == self@.kids()[i as int],
    {
        match self {
            Node::Token { .. } => self,
            Node::Inner { children, .. } => &children[i],
        }
    }

    /// A deep copy of this tree.
    pub fn clone_tree(&self) -> (copy: Node)
        ensures
            copy@ == self@,
        decreases self,
    {
        match self {
            Node::Token { text } => Node::Token { text: text.clone() },
            Node::Inner { kind, children } => {
                let mut out: Vec<Node> = Vec::new();
                clone_range(children, 0, children.len(), &mut out);
                proof {
                    lemma_view_children(*kind, out);
                    lemma_view_children(*kind, *children);
                    assert(views(out@) =~= views(children@));
                }
                Node::Inner { kind: *kind, children: out }
            },
        }
    }

    /// Appends the source text of this tree to `out`.
    pub fn write_text(&self, out: &mut String)
        ensures
            final(out)@ == old(out)@ + self@.text(),
        decreases self,
    {
        match self {
            Node::Token { text } => {
                out.append(text.as_str());
            },
            Node::Inner { kind, children } => {
                let mut i: usize = 0;
                proof {
                    lemma_view_children(*kind, *children);
                }
                while i < children.len()
                    invariant
                        i <= children@.len(),
                        *self == (Node::Inner { kind: *kind, children: *children }),
                        self@.kids() == views(children@),
                        out@ == old(out)@ + texts(views(children@).take(i as int)),
                    decreases children@.len() - i,
                {
                    children[i].write_text(out);
                    proof {
                        let cs = views(children@);
                        assert(cs.take(i + 1).drop_last() =~= cs.take(i as int));
                        assert(cs.take(i + 1).last() == children@[i as int]@);
                    }
                    i += 1;
                }
                assert(views(children@).take(i as int) =~= views(children@));
            },
        }
    }

    /// The source text of this tree.
    pub fn text(&self) -> (s: String)
        ensures
            s@ == self@.text(),
    {
        let mut out = String::new();
        self.write_text(&mut out);
        assert(out@ =~= self@.text());
        out
    }

    /// A copy of this node in which `new` stands for the children from index
    /// `from` up to index `to`.
    pub fn splice(&self, from: usize, to: usize, new: Vec<Node>) -> (out: Node)
        requires
            from <= to <= self@.kids().len(),
        ensures
            out@ == self@.splice(from as int, to as int, views(new@)),
    {
        match self {
            Node::Token { .. } => self.clone_tree(),
            Node::Inner { kind, children } => {
                proof {
                    lemma_view_children(*kind, *children);
                }
                let n = children.len();
                let ghost put_in = views(new@);
                let mut new = new;
                let mut out: Vec<Node> = Vec::new();
                clone_range(children, 0, from, &mut out);
                let ghost head = out@;
                out.append(&mut new);
                assert(views(out@) =~= views(head) + put_in);
                clone_range(children, to, n, &mut out);
                proof {
                    lemma_view_children(*kind, out);
                    assert(views(out@) =~= views(children@).subrange(0, from as int) + put_in
                        + views(children@).subrange(to as int, n as int));
                }
                Node::Inner { kind: *kind, children: out }
            },
        }
    }

    /// The subtree that `path` leads to, read from position `depth` of `path` on.
    pub fn get(&self, path: &Vec<usize>, depth: usize) -> (sub: &Node)
        requires
            depth <= path@.len(),
            self@.has(ints(path@).skip(depth as int)),
        ensures
            sub@ == self@.at(ints(path@).skip(depth as int)),
        decreases path@.len() - depth,
    {
        if depth == path.len() {
            self
        } else {
            assert(ints(path@).skip(depth as int).skip(1) =~= ints(path@).skip(depth + 1));
            assert(ints(path@).skip(depth as int)[0] == path@[depth as int]);
            self.child(path[depth]).get(path, depth + 1)
        }
    }

    /// A copy of this tree in which `sub` stands at `path`, read from position
    /// `depth` of `path` on.
    pub fn put(&self, path: &Vec<usize>, depth: usize, sub: Node) -> (out: Node)
        requires
            depth <= path@.len(),
            self@.has(ints(path@).skip(depth as int)),
        ensures
            out@ == self@.put(ints(path@).skip(depth as int), sub@),
        decreases path@.len() - depth,
    {
        if depth == path.len() {
            sub
        } else {
            match self {
                Node::Token { .. } => self.clone_tree(),
                Node::Inner { kind, children } => {
                    let i = path[depth];
                    assert(ints(path@).skip(depth as int).skip(1) =~= ints(path@).skip(depth + 1));
                    assert(ints(path@).skip(depth as int)[0] == i);
                    assert(self@.kids() == views(children@)) by {
                        lemma_view_children(*kind, *children);
                    }
                    assert(i < children@.len());
                    let new = children[i].put(path, depth + 1, sub);
                    let n = children.len();
                    let ghost put_in = new@;
                    let mut out: Vec<Node> = Vec::new();
                    clone_range(children, 0, i, &mut out);
                    let ghost head = out@;
                    out.push(new);
                    assert(views(out@) =~= views(head).push(put_in));
                    clone_range(children, i + 1, n, &mut out);
                    proof {
                        lemma_view_children(*kind, out);
                        assert(views(out@) =~= views(children@).update(i as int, put_in));
                    }
                    Node::Inner { kind: *kind, children: out }
                },
            }
        }
    }
}

} // verus!
