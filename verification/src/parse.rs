//! Finding things in a syntax tree: the attribute set that a file configures,
//! the segments of a key, and the entry that a dotted path names.
pub use crate::attrs::{collectattrs, AttrMap};
use crate::tree::{ints, Kind, Node, Tree};
use vstd::prelude::*;
use vstd::string::StrSliceExecFns;
use vstd::string::StringExecFns;

verus! {

/// The texts of a list of strings.
pub open spec fn strs(v: Seq<String>) -> Seq<Seq<char>> {
    Seq::new(v.len(), |i: int| v[i]@)
}

/// The segments of a dotted path: the pieces between its dots, of which there
/// is one more than there are dots.
pub open spec fn split_dots(s: Seq<char>) -> Seq<Seq<char>>
    decreases s.len(),
{
    if s.len() == 0 {
        seq![Seq::empty()]
    } else {
        let rest = split_dots(s.drop_last());
        if s.last() == '.' {
            rest.push(Seq::empty())
        } else {
            rest.update(rest.len() - 1, rest.last().push(s.last()))
        }
    }
}

/// Splits a dotted path into its segments.
pub fn split_path(query: &str) -> (segs: Vec<String>)
    ensures
        strs(segs@) == split_dots(query@),
{
    let n = query.unicode_len();
    let mut segs: Vec<String> = Vec::new();
    let mut start: usize = 0;
    let mut i: usize = 0;
    assert(query@.take(0) =~= Seq::<char>::empty());
    assert(strs(segs@).push(query@.subrange(0, 0)) =~= seq![Seq::<char>::empty()]);
    while i < n
        invariant
            start <= i <= n == query@.len(),
            split_dots(query@.take(i as int)) == strs(segs@).push(
                query@.subrange(start as int, i as int),
            ),
        decreases n - i,
    {
        let c = query.get_char(i);
        let ghost before = strs(segs@);
        let ghost whole = query@.take(i + 1);
        assert(whole.drop_last() =~= query@.take(i as int));
        assert(whole.last() == c);
        if c == '.' {
            let piece = String::from_str(query.substring_char(start, i));
            segs.push(piece);
            start = i + 1;
            assert(strs(segs@) =~= before.push(piece@));
            assert(query@.subrange(start as int, i + 1) =~= Seq::<char>::empty());
        } else {
            assert(query@.subrange(start as int, i as int).push(c) =~= query@.subrange(
                start as int,
                i + 1,
            ));
            assert(split_dots(whole) =~= before.push(query@.subrange(start as int, i + 1)));
        }
        i += 1;
    }
    assert(query@.take(n as int) =~= query@);
    let piece = String::from_str(query.substring_char(start, n));
    let ghost before = strs(segs@);
    segs.push(piece);
    assert(strs(segs@) =~= before.push(piece@));
    segs
}

/// Whether a text holds a line break.
pub fn has_newline(s: &str) -> (r: bool)
    ensures
        r == s@.contains('\n'),
{
    let n = s.unicode_len();
    let mut i: usize = 0;
    while i < n
        invariant
            i <= n == s@.len(),
            forall|j: int| 0 <= j < i ==> s@[j] != '\n',
        decreases n - i,
    {
        if s.get_char(i) == '\n' {
            return true;
        }
        i += 1;
    }
    false
}

/// What to look for among the children of a node.
#[derive(Clone, Copy, Debug, PartialEq, Eq, Structural)]
pub enum Want {
    /// A key.
    Key,
    /// An inner node that is not a key: in an entry, its value.
    Value,
    /// Any inner node.
    Node,
    /// An attribute set.
    Attrs,
    /// A token whose text holds a line break.
    Break,
    /// A child whose whole text is `]`.
    Close,
}

/// Whether `t` is what `w` asks for.
pub open spec fn wanted(t: Tree, w: Want) -> bool {
    match w {
        Want::Key => t.is_kind(Kind::Key),
        Want::Value => t.is_node() && !t.is_kind(Kind::Key),
        Want::Node => t.is_node(),
        Want::Attrs => t.is_kind(Kind::AttrSet),
        Want::Break => t is Token && t.text().contains('\n'),
        Want::Close => t.text() == "]"@,
    }
}

/// The index of the first of `kids`, from index `from` on, that is what `w`
/// asks for; the number of `kids` if there is none.
pub open spec fn first_from(kids: Seq<Tree>, from: int, w: Want) -> int
    decreases kids.len() - from,
{
    if from < 0 || from >= kids.len() {
        kids.len() as int
    } else if wanted(kids[from], w) {
        from
    } else {
        first_from(kids, from + 1, w)
    }
}

/// The index of the last inner node among `kids`; -1 if there is none.
pub open spec fn last_node(kids: Seq<Tree>) -> int
    decreases kids.len(),
{
    if kids.len() == 0 {
        -1
    } else if kids.last().is_node() {
        kids.len() - 1
    } else {
        last_node(kids.drop_last())
    }
}

/// What `first_from` returns lies between `from` and the number of `kids`, and
/// is wanted where it is an index.
pub proof fn lemma_first_from(kids: Seq<Tree>, from: int, w: Want)
    requires
        0 <= from <= kids.len(),
    ensures
        from <= first_from(kids, from, w) <= kids.len(),
        first_from(kids, from, w) < kids.len() ==> wanted(kids[first_from(kids, from, w)], w),
        forall|j: int| from <= j < first_from(kids, from, w) ==> !wanted(kids[j], w),
    decreases kids.len() - from,
{
    if from < kids.len() && !wanted(kids[from], w) {
        lemma_first_from(kids, from + 1, w);
    }
}

/// What `last_node` returns is -1 or the index of an inner node.
pub proof fn lemma_last_node(kids: Seq<Tree>)
    ensures
        -1 <= last_node(kids) < kids.len(),
        last_node(kids) >= 0 ==> kids[last_node(kids)].is_node(),
    decreases kids.len(),
{
    if kids.len() > 0 && !kids.last().is_node() {
        lemma_last_node(kids.drop_last());
    }
}

/// The segments of a key with the children `kids`: the texts of those that are
/// identifiers or strings, in order.
pub open spec fn segments(kids: Seq<Tree>) -> Seq<Seq<char>>
    decreases kids.len(),
{
    if kids.len() == 0 {
        Seq::empty()
    } else {
        let rest = segments(kids.drop_last());
        if kids.last().is_kind(Kind::Ident) || kids.last().is_kind(Kind::Str) {
            rest.push(kids.last().text())
        } else {
            rest
        }
    }
}

/// The segments of the key of an entry: those of its first child that is a
/// key. `None` where it has no such child.
pub open spec fn entry_key(entry: Tree) -> Option<Seq<Seq<char>>> {
    let k = first_from(entry.kids(), 0, Want::Key);
    if 0 <= k < entry.kids().len() {
        Some(segments(entry.kids()[k].kids()))
    } else {
        None
    }
}

/// Whether `key` is the beginning of `path` and shorter than it.
pub open spec fn strict_prefix(key: Seq<Seq<char>>, path: Seq<Seq<char>>) -> bool {
    key.len() < path.len() && path.take(key.len() as int) == key
}

/// The index of the body among the children `kids` of a `with`: the last inner
/// node, unless that is the first, which is the namespace. -1 where there is
/// no body.
pub open spec fn with_body(kids: Seq<Tree>) -> int {
    if last_node(kids) > first_from(kids, 0, Want::Node) {
        last_node(kids)
    } else {
        -1
    }
}

/// The index of the child through which a node of kind `kind` with the
/// children `kids` leads on to an attribute set: the body of a `with`, of a
/// `let` or of a function, the value of an entry, the expression of a whole
/// text. Out of range where there is no such child.
pub open spec fn down(kind: Kind, kids: Seq<Tree>) -> int {
    match kind {
        Kind::With => with_body(kids),
        Kind::LetIn | Kind::Lambda => last_node(kids),
        Kind::KeyValue => first_from(kids, 0, Want::Value),
        Kind::Root => first_from(kids, 0, Want::Node),
        _ => -1,
    }
}

/// The path from `t` to the attribute set that it holds: `t` itself, or what
/// is reached from it through wrappers as [`down`] names them.
pub open spec fn cfg_base(t: Tree) -> Option<Seq<int>>
    decreases t,
{
    match t {
        Tree::Token(_) => None,
        Tree::Inner(kind, kids) => if kind == Kind::AttrSet {
            Some(Seq::empty())
        } else {
            let j = down(kind, kids);
            if 0 <= j < kids.len() {
                match cfg_base(kids[j]) {
                    Some(p) => Some(seq![j] + p),
                    None => None,
                }
            } else {
                None
            }
        },
    }
}

/// The path from `t` to the entry that `path` names in the attribute set that
/// `t` holds.
pub open spec fn find_under(t: Tree, path: Seq<Seq<char>>) -> Option<Seq<int>>
    decreases t, 0int,
{
    match t {
        Tree::Token(_) => None,
        Tree::Inner(kind, kids) => if kind == Kind::AttrSet {
            find_in(kids, 0, path)
        } else {
            let j = down(kind, kids);
            if 0 <= j < kids.len() {
                match find_under(kids[j], path) {
                    Some(p) => Some(seq![j] + p),
                    None => None,
                }
            } else {
                None
            }
        },
    }
}

/// The path from an attribute set with the children `kids` to the entry that
/// `path` names, looking at the children from index `i` on, in document order.
///
/// An entry whose key is `path` is the answer. An entry whose key is a strict
/// prefix of `path` is searched for the rest of `path`, in the attribute set
/// that its value holds; if that finds nothing, the search goes on with the next
/// child.
pub open spec fn find_in(kids: Seq<Tree>, i: int, path: Seq<Seq<char>>) -> Option<Seq<int>>
    decreases kids, kids.len() - i,
{
    if i < 0 || i >= kids.len() {
        None
    } else {
        let key = entry_key(kids[i]);
        if kids[i].is_kind(Kind::KeyValue) && key == Some(path) {
            Some(seq![i])
        } else if kids[i].is_kind(Kind::KeyValue) && key is Some && strict_prefix(
            key.unwrap(),
            path,
        ) && find_under(kids[i], path.skip(key.unwrap().len() as int)) is Some {
            Some(
                seq![i] + find_under(
                    kids[i],
                    path.skip(key.unwrap().len() as int),
                ).unwrap(),
            )
        } else {
            find_in(kids, i + 1, path)
        }
    }
}

/// A path that was found leads to an entry of the tree that was searched.
pub proof fn lemma_find_under(t: Tree, path: Seq<Seq<char>>)
    requires
        find_under(t, path) is Some,
    ensures
        find_under(t, path).unwrap().len() > 0,
        t.has(find_under(t, path).unwrap()),
        t.at(find_under(t, path).unwrap()).is_kind(Kind::KeyValue),
        cfg_base(t) is Some,
    decreases t, 0int,
{
    match t {
        Tree::Token(_) => {},
        Tree::Inner(kind, kids) => {
            if kind == Kind::AttrSet {
                lemma_find_in(kids, 0, path);
            } else {
                let j = down(kind, kids);
                lemma_find_under(kids[j], path);
                let p = find_under(kids[j], path).unwrap();
                assert((seq![j] + p).skip(1) =~= p);
            }
        },
    }
}

/// A path that was found among the children of an attribute set leads to an
/// entry below one of them.
pub proof fn lemma_find_in(kids: Seq<Tree>, i: int, path: Seq<Seq<char>>)
    requires
        find_in(kids, i, path) is Some,
    ensures
        find_in(kids, i, path).unwrap().len() > 0,
        i <= find_in(kids, i, path).unwrap()[0] < kids.len(),
        kids[find_in(kids, i, path).unwrap()[0]].has(find_in(kids, i, path).unwrap().skip(1)),
        kids[find_in(kids, i, path).unwrap()[0]].at(
            find_in(kids, i, path).unwrap().skip(1),
        ).is_kind(Kind::KeyValue),
    decreases kids, kids.len() - i,
{
    let key = entry_key(kids[i]);
    if kids[i].is_kind(Kind::KeyValue) && key == Some(path) {
        assert(seq![i].skip(1) =~= Seq::<int>::empty());
    } else if kids[i].is_kind(Kind::KeyValue) && key is Some && strict_prefix(key.unwrap(), path)
        && find_under(kids[i], path.skip(key.unwrap().len() as int)) is Some {
        let rest = path.skip(key.unwrap().len() as int);
        lemma_find_under(kids[i], rest);
        let p = find_under(kids[i], rest).unwrap();
        assert((seq![i] + p).skip(1) =~= p);
    } else {
        lemma_find_in(kids, i + 1, path);
    }
}

/// Whether `n` is what `w` asks for.
pub fn is_wanted(n: &Node, w: Want) -> (r: bool)
    ensures
        r == wanted(n@, w),
{
    match w {
        Want::Key => n.is_kind(Kind::Key),
        Want::Value => n.is_node() && !n.is_kind(Kind::Key),
        Want::Node => n.is_node(),
        Want::Attrs => n.is_kind(Kind::AttrSet),
        Want::Break => match n {
            Node::Token { text } => has_newline(text.as_str()),
            Node::Inner { .. } => false,
        },
        Want::Close => {
            let t = n.text();
            let close = String::from_str("]");
            t == close
        },
    }
}

/// The index of the first child of `node`, from index `from` on, that is what
/// `w` asks for; the number of children if there is none.
pub fn first_child(node: &Node, from: usize, w: Want) -> (i: usize)
    requires
        from <= node@.kids().len(),
    ensures
        i == first_from(node@.kids(), from as int, w),
        from <= i <= node@.kids().len(),
        i < node@.kids().len() ==> wanted(node@.kids()[i as int], w),
{
    let n = node.arity();
    let mut i: usize = from;
    proof {
        lemma_first_from(node@.kids(), from as int, w);
    }
    while i < n
        invariant
            from <= i <= n == node@.kids().len(),
            first_from(node@.kids(), from as int, w) == first_from(node@.kids(), i as int, w),
        decreases n - i,
    {
        if is_wanted(node.child(i), w) {
            return i;
        }
        i += 1;
    }
    n
}

/// The index of the last child of `node` that is an inner node, if any.
pub fn last_inner(node: &Node) -> (r: Option<usize>)
    ensures
        match r {
            Some(j) => j == last_node(node@.kids()) && j < node@.kids().len(),
            None => last_node(node@.kids()) == -1,
        },
{
    let n = node.arity();
    let mut i: usize = n;
    assert(node@.kids().take(n as int) =~= node@.kids());
    while i > 0
        invariant
            i <= n == node@.kids().len(),
            last_node(node@.kids()) == last_node(node@.kids().take(i as int)),
        decreases i,
    {
        let ghost part = node@.kids().take(i as int);
        assert(part.drop_last() =~= node@.kids().take(i - 1));
        if node.child(i - 1).is_node() {
            return Some(i - 1);
        }
        i -= 1;
    }
    None
}

/// The segments of a key node: the texts of its children that are identifiers
/// or strings, in order.
pub fn getkey(node: &Node) -> (key: Vec<String>)
    ensures
        strs(key@) == segments(node@.kids()),
{
    let n = node.arity();
    let mut key: Vec<String> = Vec::new();
    let mut i: usize = 0;
    assert(strs(key@) =~= segments(node@.kids().take(0)));
    while i < n
        invariant
            i <= n == node@.kids().len(),
            strs(key@) == segments(node@.kids().take(i as int)),
        decreases n - i,
    {
        let c = node.child(i);
        let ghost part = node@.kids().take(i + 1);
        assert(part.drop_last() =~= node@.kids().take(i as int));
        if c.is_kind(Kind::Ident) || c.is_kind(Kind::Str) {
            let ghost before = strs(key@);
            let t = c.text();
            key.push(t);
            assert(strs(key@) =~= before.push(t@));
        }
        i += 1;
    }
    assert(node@.kids().take(n as int) =~= node@.kids());
    key
}

/// The segments of the key of an entry, if it has a key.
pub fn key_of_entry(entry: &Node) -> (r: Option<Vec<String>>)
    ensures
        match r {
            Some(key) => entry_key(entry@) == Some(strs(key@)),
            None => entry_key(entry@) is None,
        },
{
    let k = first_child(entry, 0, Want::Key);
    if k < entry.arity() {
        Some(getkey(entry.child(k)))
    } else {
        None
    }
}

/// How a key stands to what is left of a path.
#[derive(Clone, Copy, Debug, PartialEq, Eq, Structural)]
pub enum Match {
    /// The key is what is left of the path.
    Exact,
    /// The key is the beginning of what is left, and shorter.
    Prefix,
    /// Neither.
    Differs,
}

/// Compares `key` with `path` from its segment `from` on.
pub fn match_key(key: &Vec<String>, path: &Vec<String>, from: usize) -> (m: Match)
    requires
        from <= path@.len(),
    ensures
        (m == Match::Exact) == (strs(key@) == strs(path@).skip(from as int)),
        (m == Match::Prefix) == strict_prefix(strs(key@), strs(path@).skip(from as int)),
{
    let ghost rest = strs(path@).skip(from as int);
    let total = path.len();
    let left = total - from;
    if key.len() > left {
        return Match::Differs;
    }
    let mut i: usize = 0;
    while i < key.len()
        invariant
            i <= key@.len() <= left == rest.len(),
            rest == strs(path@).skip(from as int),
            from + left == total == path@.len(),
            forall|j: int| 0 <= j < i ==> key@[j]@ == rest[j],
        decreases key@.len() - i,
    {
        if key[i] != path[from + i] {
            assert(strs(key@)[i as int] != rest[i as int]);
            assert(rest.take(key@.len() as int)[i as int] == rest[i as int]);
            return Match::Differs;
        }
        i += 1;
    }
    assert(rest.take(key@.len() as int) =~= strs(key@));
    if key.len() == left {
        assert(rest.take(key@.len() as int) =~= rest);
        Match::Exact
    } else {
        Match::Prefix
    }
}

/// Puts the index `j` in front of the path `p`.
pub fn prepend(j: usize, p: Vec<usize>) -> (out: Vec<usize>)
    ensures
        out@ == seq![j] + p@,
        ints(out@) == seq![j as int] + ints(p@),
{
    let mut out: Vec<usize> = Vec::new();
    out.push(j);
    let mut p = p;
    let ghost tail = p@;
    out.append(&mut p);
    assert(ints(out@) =~= seq![j as int] + ints(tail));
    out
}

/// The index of the child through which `node` leads on to an attribute set.
pub fn down_child(node: &Node) -> (r: Option<usize>)
    ensures
        match (r, node@) {
            (Some(j), Tree::Inner(kind, kids)) => j == down(kind, kids) && j < kids.len(),
            (None, Tree::Inner(kind, kids)) => !(0 <= down(kind, kids) < kids.len()),
            (Some(_), Tree::Token(_)) => false,
            (None, Tree::Token(_)) => true,
        },
{
    match node {
        Node::Token { .. } => None,
        Node::Inner { kind, .. } => {
            proof {
                lemma_last_node(node@.kids());
            }
            match kind {
                Kind::With => {
                    let first = first_child(node, 0, Want::Node);
                    match last_inner(node) {
                        Some(j) => if j > first {
                            Some(j)
                        } else {
                            None
                        },
                        None => None,
                    }
                },
                Kind::LetIn | Kind::Lambda => last_inner(node),
                Kind::KeyValue => {
                    let j = first_child(node, 0, Want::Value);
                    if j < node.arity() {
                        Some(j)
                    } else {
                        None
                    }
                },
                Kind::Root => {
                    let j = first_child(node, 0, Want::Node);
                    if j < node.arity() {
                        Some(j)
                    } else {
                        None
                    }
                },
                _ => None,
            }
        },
    }
}

/// The path from `node` to the attribute set that it holds, if it holds one:
/// `node` itself, or what is reached through the body of a `with`, of a `let` or
/// of a function, the value of an entry, or the expression of a whole text.
pub fn getcfgbase(node: &Node) -> (r: Option<Vec<usize>>)
    ensures
        match r {
            Some(p) => cfg_base(node@) == Some(ints(p@)) && node@.has(ints(p@)) && node@.at(
                ints(p@),
            ).is_kind(
                Kind::AttrSet,
            ),
            None => cfg_base(node@) is None,
        },
    decreases node@,
{
    if node.is_kind(Kind::AttrSet) {
        let out: Vec<usize> = Vec::new();
        assert(ints(out@) =~= Seq::<int>::empty());
        return Some(out);
    }
    match down_child(node) {
        Some(j) => match getcfgbase(node.child(j)) {
            Some(p) => {
                let out = prepend(j, p);
                assert(ints(out@).skip(1) =~= ints(p@));
                Some(out)
            },
            None => None,
        },
        None => None,
    }
}

/// The path from `node` to the entry that the segments of `path` from `from`
/// on name, in the attribute set that `node` holds.
pub fn find_below(node: &Node, path: &Vec<String>, from: usize) -> (r: Option<Vec<usize>>)
    requires
        from <= path@.len(),
    ensures
        match r {
            Some(p) => find_under(node@, strs(path@).skip(from as int)) == Some(ints(p@)),
            None => find_under(node@, strs(path@).skip(from as int)) is None,
        },
    decreases node@, 1int,
{
    if node.is_kind(Kind::AttrSet) {
        return find_entry(node, path, from);
    }
    match down_child(node) {
        Some(j) => match find_below(node.child(j), path, from) {
            Some(p) => Some(prepend(j, p)),
            None => None,
        },
        None => None,
    }
}

/// The path from the attribute set `set` to the entry that the segments of
/// `path` from `from` on name.
pub fn find_entry(set: &Node, path: &Vec<String>, from: usize) -> (r: Option<Vec<usize>>)
    requires
        from <= path@.len(),
    ensures
        match r {
            Some(p) => find_in(set@.kids(), 0, strs(path@).skip(from as int)) == Some(ints(p@)),
            None => find_in(set@.kids(), 0, strs(path@).skip(from as int)) is None,
        },
    decreases set@, 0int,
{
    let ghost rest = strs(path@).skip(from as int);
    let total = path.len();
    let n = set.arity();
    let mut i: usize = 0;
    while i < n
        invariant
            i <= n == set@.kids().len(),
            from <= path@.len() == total,
            rest == strs(path@).skip(from as int),
            find_in(set@.kids(), 0, rest) == find_in(set@.kids(), i as int, rest),
        decreases n - i,
    {
        let entry = set.child(i);
        if entry.is_kind(Kind::KeyValue) {
            if let Some(key) = key_of_entry(entry) {
                match match_key(&key, path, from) {
                    Match::Exact => {
                        let mut out: Vec<usize> = Vec::new();
                        out.push(i);
                        assert(ints(out@) =~= seq![i as int]);
                        return Some(out);
                    },
                    Match::Prefix => {
                        assert(strs(key@).len() < rest.len());
                        assert(rest.skip(key@.len() as int) =~= strs(path@).skip(
                            from + key@.len(),
                        ));
                        if let Some(p) = find_below(entry, path, from + key.len()) {
                            return Some(prepend(i, p));
                        }
                    },
                    Match::Differs => {},
                }
            }
        }
        i += 1;
    }
    None
}

/// The path from `node` to the entry that the dotted path `name` names, in
/// the attribute set that `node` holds; `None` where no entry has that path.
pub fn findattr(node: &Node, name: &str) -> (r: Option<Vec<usize>>)
    ensures
        match r {
            Some(p) => find_under(node@, split_dots(name@)) == Some(ints(p@)) && node@.has(ints(p@))
                && node@.at(ints(p@)).is_kind(Kind::KeyValue),
            None => find_under(node@, split_dots(name@)) is None,
        },
{
    let path = split_path(name);
    assert(strs(path@).skip(0) =~= strs(path@));
    let r = find_below(node, &path, 0);
    proof {
        if r is Some {
            lemma_find_under(node@, split_dots(name@));
        }
    }
    r
}

} // verus!
