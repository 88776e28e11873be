//! Reading values: the text of a value, the elements of a list, and the
//! namespaces of the `with` scopes around a value.
use crate::parse::{cfg_base, find_under, first_from, split_dots, strs, with_body, Want};
use crate::parse::{find_below, first_child, getcfgbase, last_inner, split_path};
use crate::parse::{lemma_find_under, lemma_last_node};
use crate::syntax::{fits, parse_tree, syntax_tree};
use crate::tree::{ints, lemma_at_join, Kind, Node, Tree};
use vstd::prelude::*;
use vstd::string::StringExecFns;

verus! {

/// Why a value could not be read.
#[derive(Clone, Copy, Debug, PartialEq, Eq, Structural)]
pub enum ReadError {
    /// The text holds no attribute set to read from, or is too long to be
    /// parsed.
    ParseError,
    /// The path names no attribute, or one without a value.
    NoAttr,
    /// The value is not a list.
    ArrayError,
}

impl ReadError {
    /// What the error says, in words.
    pub open spec fn message_text(self) -> Seq<char> {
        match self {
            ReadError::ParseError => "Read Error: Error while parsing."@,
            ReadError::NoAttr => "Read Error: No attributes."@,
            ReadError::ArrayError => "Read Error: Error with array."@,
        }
    }

    /// What the error says, in words.
    pub fn message(&self) -> (s: String)
        ensures
            s@ == self.message_text(),
    {
        match self {
            ReadError::ParseError => String::from_str("Read Error: Error while parsing."),
            ReadError::NoAttr => String::from_str("Read Error: No attributes."),
            ReadError::ArrayError => String::from_str("Read Error: Error with array."),
        }
    }
}

/// The path from `root` to the value of the entry that `path` names.
///
/// `ParseError` where `root` holds no attribute set; `NoAttr` where no entry
/// has that path, or the entry has no value.
pub open spec fn value_path(root: Tree, path: Seq<Seq<char>>) -> Result<Seq<int>, ReadError> {
    if cfg_base(root) is None {
        Err(ReadError::ParseError)
    } else {
        match find_under(root, path) {
            None => Err(ReadError::NoAttr),
            Some(p) => {
                let j = first_from(root.at(p).kids(), 0, Want::Value);
                if j < root.at(p).kids().len() {
                    Ok(p.push(j))
                } else {
                    Err(ReadError::NoAttr)
                }
            },
        }
    }
}

/// The text of the value that `path` names below `root`.
pub open spec fn value_text(root: Tree, path: Seq<Seq<char>>) -> Result<Seq<char>, ReadError> {
    match value_path(root, path) {
        Ok(p) => Ok(root.at(p).text()),
        Err(e) => Err(e),
    }
}

/// The path from `t` to the list that it is, through the bodies of the `with`
/// scopes that wrap it.
pub open spec fn list_under(t: Tree) -> Option<Seq<int>>
    decreases t,
{
    match t {
        Tree::Token(_) => None,
        Tree::Inner(kind, kids) => if kind == Kind::List {
            Some(Seq::empty())
        } else if kind == Kind::With {
            let j = with_body(kids);
            if 0 <= j < kids.len() {
                match list_under(kids[j]) {
                    Some(p) => Some(seq![j] + p),
                    None => None,
                }
            } else {
                None
            }
        } else {
            None
        },
    }
}

/// The texts of the inner nodes among `kids`, in order: the elements of a list
/// with these children.
pub open spec fn elements(kids: Seq<Tree>) -> Seq<Seq<char>>
    decreases kids.len(),
{
    if kids.len() == 0 {
        Seq::empty()
    } else if kids.last().is_node() {
        elements(kids.drop_last()).push(kids.last().text())
    } else {
        elements(kids.drop_last())
    }
}

/// The namespaces of the `with` scopes that wrap `t`, outermost first.
pub open spec fn with_names(t: Tree) -> Seq<Seq<char>>
    decreases t,
{
    match t {
        Tree::Token(_) => Seq::empty(),
        Tree::Inner(kind, kids) => if kind == Kind::With {
            let first = first_from(kids, 0, Want::Node);
            let j = with_body(kids);
            if 0 <= first < kids.len() {
                if 0 <= j < kids.len() {
                    seq![kids[first].text()] + with_names(kids[j])
                } else {
                    seq![kids[first].text()]
                }
            } else {
                Seq::empty()
            }
        } else {
            Seq::empty()
        },
    }
}

/// The elements of the list that `path` names below `root`.
///
/// `ArrayError` where the value is not a list, wrapped in `with` scopes or not.
pub open spec fn array_values(root: Tree, path: Seq<Seq<char>>) -> Result<
    Seq<Seq<char>>,
    ReadError,
> {
    match value_path(root, path) {
        Ok(p) => match list_under(root.at(p)) {
            Some(l) => Ok(elements(root.at(p).at(l).kids())),
            None => Err(ReadError::ArrayError),
        },
        Err(ReadError::NoAttr) => if find_under(root, path) is Some {
            Err(ReadError::ArrayError)
        } else {
            Err(ReadError::NoAttr)
        },
        Err(e) => Err(e),
    }
}

/// The namespaces of the `with` scopes around the value that `path` names
/// below `root`.
pub open spec fn with_values(root: Tree, path: Seq<Seq<char>>) -> Result<
    Seq<Seq<char>>,
    ReadError,
> {
    match value_path(root, path) {
        Ok(p) => Ok(with_names(root.at(p))),
        Err(e) => Err(e),
    }
}

/// What reading from the text `f` gives, where `r` is what reading from its
/// tree gives: `ParseError` where the text is too long to be parsed.
pub open spec fn of_text<T>(f: Seq<char>, r: Result<T, ReadError>) -> Result<T, ReadError> {
    if fits(f) {
        r
    } else {
        Err(ReadError::ParseError)
    }
}

/// The path to the value of the entry at `entry_path`, if the entry has a
/// value: its first child that is an inner node and not a key.
pub fn value_of_entry(root: &Node, entry_path: Vec<usize>) -> (r: Option<Vec<usize>>)
    requires
        root@.has(ints(entry_path@)),
    ensures
        match r {
            Some(p) => {
                let j = first_from(root@.at(ints(entry_path@)).kids(), 0, Want::Value);
                &&& j < root@.at(ints(entry_path@)).kids().len()
                &&& ints(p@) == ints(entry_path@).push(j)
                &&& root@.has(ints(p@))
                &&& root@.at(ints(p@)) == root@.at(ints(entry_path@)).kids()[j]
                &&& root@.at(ints(p@)).is_node()
            },
            None => first_from(root@.at(ints(entry_path@)).kids(), 0, Want::Value) >= root@.at(
                ints(entry_path@),
            ).kids().len(),
        },
{
    assert(ints(entry_path@).skip(0) =~= ints(entry_path@));
    let entry = root.get(&entry_path, 0);
    let j = first_child(entry, 0, Want::Value);
    if j < entry.arity() {
        let mut p = entry_path;
        let ghost to_entry = ints(p@);
        p.push(j);
        proof {
            reveal_with_fuel(Tree::has, 2);
            reveal_with_fuel(Tree::at, 2);
            assert(seq![j as int].skip(1) =~= Seq::<int>::empty());
            assert(root@.at(to_entry).has(seq![j as int]));
            assert(root@.at(to_entry).at(seq![j as int]) == entry@.kids()[j as int]);
            lemma_at_join(root@, to_entry, seq![j as int]);
            assert(to_entry + seq![j as int] =~= ints(p@));
            assert(to_entry.push(j as int) =~= ints(p@));
        }
        Some(p)
    } else {
        None
    }
}

/// The path from `root` to the value of the entry that `path` names.
pub fn find_value(root: &Node, path: &Vec<String>) -> (r: Result<Vec<usize>, ReadError>)
    ensures
        match r {
            Ok(p) => value_path(root@, strs(path@)) == Ok::<Seq<int>, ReadError>(ints(p@))
                && root@.has(ints(p@)) && root@.at(ints(p@)).is_node(),
            Err(e) => value_path(root@, strs(path@)) == Err::<Seq<int>, ReadError>(e),
        },
{
    if getcfgbase(root).is_none() {
        return Err(ReadError::ParseError);
    }
    assert(strs(path@).skip(0) =~= strs(path@));
    match find_below(root, path, 0) {
        None => Err(ReadError::NoAttr),
        Some(p) => {
            proof {
                lemma_find_under(root@, strs(path@));
            }
            match value_of_entry(root, p) {
                Some(v) => Ok(v),
                None => Err(ReadError::NoAttr),
            }
        },
    }
}

/// The text of the value that `path` names below `root`.
pub fn read_from(root: &Node, path: &Vec<String>) -> (r: Result<String, ReadError>)
    ensures
        match r {
            Ok(s) => value_text(root@, strs(path@)) == Ok::<Seq<char>, ReadError>(s@),
            Err(e) => value_text(root@, strs(path@)) == Err::<Seq<char>, ReadError>(e),
        },
{
    match find_value(root, path) {
        Ok(p) => {
            assert(ints(p@).skip(0) =~= ints(p@));
            Ok(root.get(&p, 0).text())
        },
        Err(e) => Err(e),
    }
}

/// The text of the value at the dotted path `query` in the Nix text `f`,
/// quotes and all.
pub fn readvalue(f: &str, query: &str) -> (r: Result<String, ReadError>)
    ensures
        match r {
            Ok(s) => of_text(f@, value_text(syntax_tree(f@), split_dots(query@))) == Ok::<
                Seq<char>,
                ReadError,
            >(s@),
            Err(e) => of_text(f@, value_text(syntax_tree(f@), split_dots(query@))) == Err::<
                Seq<char>,
                ReadError,
            >(e),
        },
{
    match parse_tree(f) {
        Some(root) => {
            let path = split_path(query);
            read_from(&root, &path)
        },
        None => Err(ReadError::ParseError),
    }
}

/// The path from `node` to the list that it is, through the `with` scopes
/// that wrap it.
pub fn find_list(node: &Node) -> (r: Option<Vec<usize>>)
    ensures
        match r {
            Some(p) => list_under(node@) == Some(ints(p@)) && node@.has(ints(p@)) && node@.at(
                ints(p@),
            ).is_kind(Kind::List),
            None => list_under(node@) is None,
        },
    decreases node@,
{
    if node.is_kind(Kind::List) {
        let out: Vec<usize> = Vec::new();
        assert(ints(out@) =~= Seq::<int>::empty());
        return Some(out);
    }
    if !node.is_kind(Kind::With) {
        return None;
    }
    proof {
        lemma_last_node(node@.kids());
    }
    let first = first_child(node, 0, Want::Node);
    match last_inner(node) {
        Some(j) => if j > first {
            match find_list(node.child(j)) {
                Some(p) => {
                    let out = crate::parse::prepend(j, p);
                    assert(ints(out@).skip(1) =~= ints(p@));
                    Some(out)
                },
                None => None,
            }
        } else {
            None
        },
        None => None,
    }
}

/// The texts of the children of `list` that are inner nodes, in order.
pub fn list_elements(list: &Node) -> (out: Vec<String>)
    ensures
        strs(out@) == elements(list@.kids()),
{
    let n = list.arity();
    let mut out: Vec<String> = Vec::new();
    let mut i: usize = 0;
    assert(strs(out@) =~= elements(list@.kids().take(0)));
    while i < n
        invariant
            i <= n == list@.kids().len(),
            strs(out@) == elements(list@.kids().take(i as int)),
        decreases n - i,
    {
        let c = list.child(i);
        let ghost part = list@.kids().take(i + 1);
        assert(part.drop_last() =~= list@.kids().take(i as int));
        if c.is_node() {
            let ghost before = strs(out@);
            let t = c.text();
            out.push(t);
            assert(strs(out@) =~= before.push(t@));
        }
        i += 1;
    }
    assert(list@.kids().take(n as int) =~= list@.kids());
    out
}

/// The elements of the list that `path` names below `root`.
pub fn array_from(root: &Node, path: &Vec<String>) -> (r: Result<Vec<String>, ReadError>)
    ensures
        match r {
            Ok(v) => array_values(root@, strs(path@)) == Ok::<Seq<Seq<char>>, ReadError>(strs(v@)),
            Err(e) => array_values(root@, strs(path@)) == Err::<Seq<Seq<char>>, ReadError>(e),
        },
{
    match find_value(root, path) {
        Ok(p) => {
            assert(ints(p@).skip(0) =~= ints(p@));
            let value = root.get(&p, 0);
            match find_list(value) {
                Some(l) => {
                    assert(ints(l@).skip(0) =~= ints(l@));
                    Ok(list_elements(value.get(&l, 0)))
                },
                None => Err(ReadError::ArrayError),
            }
        },
        Err(ReadError::NoAttr) => {
            assert(strs(path@).skip(0) =~= strs(path@));
            if find_below(root, path, 0).is_some() {
                Err(ReadError::ArrayError)
            } else {
                Err(ReadError::NoAttr)
            }
        },
        Err(e) => Err(e),
    }
}

/// The elements of the list at the dotted path `query` in the Nix text `f`,
/// in source order, without what stands between them.
pub fn getarrvals(f: &str, query: &str) -> (r: Result<Vec<String>, ReadError>)
    ensures
        match r {
            Ok(v) => of_text(f@, array_values(syntax_tree(f@), split_dots(query@))) == Ok::<
                Seq<Seq<char>>,
                ReadError,
            >(strs(v@)),
            Err(e) => of_text(f@, array_values(syntax_tree(f@), split_dots(query@))) == Err::<
                Seq<Seq<char>>,
                ReadError,
            >(e),
        },
{
    match parse_tree(f) {
        Some(root) => {
            let path = split_path(query);
            array_from(&root, &path)
        },
        None => Err(ReadError::ParseError),
    }
}

/// The namespaces of the `with` scopes that wrap `node`, outermost first.
pub fn scope_names(node: &Node) -> (out: Vec<String>)
    ensures
        strs(out@) == with_names(node@),
    decreases node@,
{
    let mut out: Vec<String> = Vec::new();
    if !node.is_kind(Kind::With) {
        assert(strs(out@) =~= with_names(node@));
        return out;
    }
    proof {
        lemma_last_node(node@.kids());
    }
    let first = first_child(node, 0, Want::Node);
    if first >= node.arity() {
        assert(strs(out@) =~= with_names(node@));
        return out;
    }
    let name = node.child(first).text();
    out.push(name);
    assert(strs(out@) =~= seq![name@]);
    match last_inner(node) {
        Some(j) => if j > first {
            let mut inner = scope_names(node.child(j));
            let ghost inner_names = strs(inner@);
            out.append(&mut inner);
            assert(strs(out@) =~= seq![name@] + inner_names);
        },
        None => {},
    }
    out
}

/// The namespaces of the `with` scopes around the value that `path` names
/// below `root`.
pub fn with_from(root: &Node, path: &Vec<String>) -> (r: Result<Vec<String>, ReadError>)
    ensures
        match r {
            Ok(v) => with_values(root@, strs(path@)) == Ok::<Seq<Seq<char>>, ReadError>(strs(v@)),
            Err(e) => with_values(root@, strs(path@)) == Err::<Seq<Seq<char>>, ReadError>(e),
        },
{
    match find_value(root, path) {
        Ok(p) => {
            assert(ints(p@).skip(0) =~= ints(p@));
            Ok(scope_names(root.get(&p, 0)))
        },
        Err(e) => Err(e),
    }
}

/// The namespaces of the `with` scopes around the value at the dotted path
/// `query` in the Nix text `f`, outermost first; none where no `with` wraps it.
pub fn getwithvalue(f: &str, query: &str) -> (r: Result<Vec<String>, ReadError>)
    ensures
        match r {
            Ok(v) => of_text(f@, with_values(syntax_tree(f@), split_dots(query@))) == Ok::<
                Seq<Seq<char>>,
                ReadError,
            >(strs(v@)),
            Err(e) => of_text(f@, with_values(syntax_tree(f@), split_dots(query@))) == Err::<
                Seq<Seq<char>>,
                ReadError,
            >(e),
        },
{
    match parse_tree(f) {
        Some(root) => {
            let path = split_path(query);
            with_from(&root, &path)
        },
        None => Err(ReadError::ParseError),
    }
}

} // verus!
