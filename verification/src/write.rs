//! Editing: replacing a value, adding an entry, appending to and removing from
//! a list, and deleting an entry. Every edit makes a new tree; the text of what
//! it does not touch stays as it was.
use crate::laws::{closed_list, kept, lemma_append_all_elements, lemma_array_after_put};
use crate::laws::{lemma_deref_then_read, lemma_elements_of_nodes, lemma_removed_elements};
use crate::laws::{lemma_put_text, lemma_with_entry_text, lemma_without_entry_text};
use crate::laws::{lemma_write_then_read, once_under, text_after, text_before};
use crate::parse::{cfg_base, down, entry_key, find_under, first_from, split_dots, strict_prefix};
use crate::parse::{down_child, find_below, first_child, getcfgbase, is_wanted, key_of_entry};
use crate::parse::{lemma_find_under, lemma_first_from, match_key, prepend, split_path, strs};
use crate::parse::{wanted, Match, Want};
use crate::read::{array_values, elements, find_list, list_under, value_of_entry, value_path};
use crate::read::{value_text, ReadError};
use crate::syntax::{fits, parse_tree, syntax_tree};
use crate::tree::{ints, lemma_at_join, lemma_has_split, views, Kind, Node, Tree};
use vstd::prelude::*;
use vstd::string::StringExecFns;

verus! {

/// Why a text could not be edited.
#[derive(Clone, Copy, Debug, PartialEq, Eq, Structural)]
pub enum WriteError {
    /// The text holds no attribute set to edit, the entry to change has no
    /// value, or a text is too long to be parsed.
    ParseError,
    /// The path names no attribute.
    NoAttr,
    /// The value is not a list.
    ArrayError,
}

impl WriteError {
    /// What the error says, in words.
    pub open spec fn message_text(self) -> Seq<char> {
        match self {
            WriteError::ParseError => "Write Error: Error while parsing."@,
            WriteError::NoAttr => "Write Error: No attributes."@,
            WriteError::ArrayError => "Write Error: Error with array."@,
        }
    }

    /// What the error says, in words.
    pub fn message(&self) -> (s: String)
        ensures
            s@ == self.message_text(),
    {
        match self {
            WriteError::ParseError => String::from_str("Write Error: Error while parsing."),
            WriteError::NoAttr => String::from_str("Write Error: No attributes."),
            WriteError::ArrayError => String::from_str("Write Error: Error with array."),
        }
    }
}

/// `n` spaces.
pub open spec fn spaces(n: nat) -> Seq<char> {
    Seq::new(n, |i: int| ' ')
}

/// The segments of a path joined by dots.
pub open spec fn join_dots(segs: Seq<Seq<char>>) -> Seq<char>
    decreases segs.len(),
{
    if segs.len() == 0 {
        Seq::empty()
    } else if segs.len() == 1 {
        segs[0]
    } else {
        join_dots(segs.drop_last()) + "."@ + segs.last()
    }
}

/// The text of a new entry: a line break, two spaces and `indent` more, the
/// key, ` = `, the value and `;`.
pub open spec fn entry_text(indent: nat, key: Seq<char>, val: Seq<char>) -> Seq<char> {
    "\n  "@ + spaces(indent) + key + " = "@ + val + ";"@
}

/// The deepest attribute set that is open for `path`, found from the node
/// `t`: the path to the set, how many segments of `path` the keys on the way to
/// it account for, and how many sets deep it lies.
pub open spec fn set_under(t: Tree, path: Seq<Seq<char>>) -> Option<(Seq<int>, int, int)>
    decreases t, 0int,
{
    match t {
        Tree::Token(_) => None,
        Tree::Inner(kind, kids) => if kind == Kind::AttrSet {
            set_in(kids, 0, path)
        } else {
            let j = down(kind, kids);
            if 0 <= j < kids.len() {
                match set_under(kids[j], path) {
                    Some((p, matched, levels)) => Some((seq![j] + p, matched, levels)),
                    None => None,
                }
            } else {
                None
            }
        },
    }
}

/// Whether `entry` opens an attribute set for `path`: it is an entry whose
/// key has at least one segment and is a strict prefix of `path`, and its value
/// holds an attribute set.
pub open spec fn opens(entry: Tree, path: Seq<Seq<char>>) -> bool {
    &&& entry.is_kind(Kind::KeyValue)
    &&& entry_key(entry) is Some
    &&& entry_key(entry).unwrap().len() > 0
    &&& strict_prefix(entry_key(entry).unwrap(), path)
    &&& cfg_base(entry) is Some
}

/// The same search among the children `kids` of an attribute set, from index
/// `i` on, in document order.
///
/// The first entry that opens an attribute set for `path` decides. If a set
/// deeper in it is open for the rest of `path`, that one is the answer; else the
/// set of the entry itself.
pub open spec fn set_in(kids: Seq<Tree>, i: int, path: Seq<Seq<char>>) -> Option<
    (Seq<int>, int, int),
>
    decreases kids, kids.len() - i,
{
    if i < 0 || i >= kids.len() {
        None
    } else if opens(kids[i], path) {
        let key = entry_key(kids[i]).unwrap();
        match set_under(kids[i], path.skip(key.len() as int)) {
            Some(found) => Some((seq![i] + found.0, key.len() + found.1, found.2 + 1)),
            None => Some((seq![i] + cfg_base(kids[i]).unwrap(), key.len() as int, 1)),
        }
    } else {
        set_in(kids, i + 1, path)
    }
}

/// Whether the first segments of `key` are `q`.
pub open spec fn has_prefix(key: Seq<Seq<char>>, q: Seq<Seq<char>>) -> bool {
    key.len() >= q.len() && key.take(q.len() as int) == q
}

/// Whether `entry` is an entry whose key begins with `q`.
pub open spec fn shares(entry: Tree, q: Seq<Seq<char>>) -> bool {
    entry.is_kind(Kind::KeyValue) && entry_key(entry) is Some && has_prefix(
        entry_key(entry).unwrap(),
        q,
    )
}

/// The index of the first of `kids`, from index `i` on, that is an entry whose
/// key begins with `q`; the number of `kids` if there is none.
pub open spec fn match_from(kids: Seq<Tree>, i: int, q: Seq<Seq<char>>) -> int
    decreases kids.len() - i,
{
    if i < 0 || i >= kids.len() {
        kids.len() as int
    } else if shares(kids[i], q) {
        i
    } else {
        match_from(kids, i + 1, q)
    }
}

/// The index of the entry among `kids` that is nearest to `path`: the first
/// whose key shares the first `n` segments with `path`, or, if there is none,
/// the first that shares one segment fewer, and so on down to one segment. The
/// number of `kids` if no entry shares even the first segment.
pub open spec fn match_val(kids: Seq<Tree>, path: Seq<Seq<char>>, n: int) -> int
    decreases n,
{
    if n <= 0 {
        kids.len() as int
    } else if match_from(kids, 0, path.take(n)) < kids.len() {
        match_from(kids, 0, path.take(n))
    } else {
        match_val(kids, path, n - 1)
    }
}

/// The index at which a new entry for `path` is put among the children `kids`
/// of an attribute set.
///
/// Without a related entry it is the index of the last child but one, in front
/// of what closes the set and the space before it. With an entry that shares a
/// beginning with `path` it is the index of the first token that holds a line
/// break, from that entry on, so that the new entry, which brings its own line
/// break, comes to stand on the line after it.
pub open spec fn insert_at(kids: Seq<Tree>, path: Seq<Seq<char>>) -> int {
    let last_but_one = if kids.len() >= 2 {
        kids.len() - 2
    } else {
        0
    };
    let near = match_val(kids, path, path.len() as int);
    if near < kids.len() && first_from(kids, near, Want::Break) < kids.len() {
        first_from(kids, near, Want::Break)
    } else {
        last_but_one
    }
}

/// The tree `root` with `entry` put into the attribute set at `set_path`, at
/// the index that [`insert_at`] gives for `path`.
pub open spec fn with_entry(root: Tree, set_path: Seq<int>, path: Seq<Seq<char>>, entry: Tree) -> Tree {
    let set = root.at(set_path);
    let at = insert_at(set.kids(), path);
    root.put(set_path, set.splice(at, at, seq![entry]))
}

/// The attribute set that takes a new entry for `path`, which no entry of
/// `root` has: the deepest set that is open for `path`, or else the set that
/// `root` holds; with the number of segments accounted for and the depth of
/// the set.
pub open spec fn home_of(root: Tree, path: Seq<Seq<char>>) -> (Seq<int>, int, int) {
    if set_under(root, path) is Some {
        set_under(root, path).unwrap()
    } else {
        (cfg_base(root).unwrap(), 0, 0)
    }
}

/// The text of the new entry for `path` and the value `val`: indented by two
/// spaces for each set that it lies in, with what is left of `path` for its
/// key.
pub open spec fn new_entry_text(root: Tree, path: Seq<Seq<char>>, val: Seq<char>) -> Seq<char> {
    let home = home_of(root, path);
    entry_text((2 * home.2) as nat, join_dots(path.skip(home.1)), val)
}

/// The tree `root` with a new entry for `path` and the value `val`.
pub open spec fn added(root: Tree, path: Seq<Seq<char>>, val: Seq<char>) -> Tree {
    let home = home_of(root, path);
    with_entry(
        root,
        home.0,
        path.skip(home.1),
        syntax_tree(new_entry_text(root, path, val)),
    )
}

/// What writing the value `val` at `path` makes of the tree `root`.
///
/// `ParseError` where `root` holds no attribute set, where the entry that
/// `path` names has no value to replace, or where the new text is too long to
/// be parsed. Where an entry has that path, its
/// value is replaced by the tree of `val`; where none has, a new entry is added.
pub open spec fn written(root: Tree, path: Seq<Seq<char>>, val: Seq<char>) -> Result<
    Tree,
    WriteError,
> {
    if cfg_base(root) is None {
        Err(WriteError::ParseError)
    } else {
        match find_under(root, path) {
            Some(p) => {
                let j = first_from(root.at(p).kids(), 0, Want::Value);
                if j < root.at(p).kids().len() && fits(val) {
                    Ok(root.put(p.push(j), syntax_tree(val)))
                } else {
                    Err(WriteError::ParseError)
                }
            },
            None => if fits(new_entry_text(root, path, val)) {
                Ok(added(root, path, val))
            } else {
                Err(WriteError::ParseError)
            },
        }
    }
}

/// What editing the text `f` gives, where `r` is what editing its tree gives:
/// `ParseError` where the text is too long to be parsed.
pub open spec fn of_source(f: Seq<char>, r: Result<Tree, WriteError>) -> Result<
    Seq<char>,
    WriteError,
> {
    if fits(f) {
        text_of(r)
    } else {
        Err(WriteError::ParseError)
    }
}

/// The text of the tree of a result.
pub open spec fn text_of(r: Result<Tree, WriteError>) -> Result<Seq<char>, WriteError> {
    match r {
        Ok(t) => Ok(t.text()),
        Err(e) => Err(e),
    }
}

/// What [`match_from`] returns lies between `i` and the number of `kids`.
pub proof fn lemma_match_from(kids: Seq<Tree>, i: int, q: Seq<Seq<char>>)
    requires
        0 <= i <= kids.len(),
    ensures
        i <= match_from(kids, i, q) <= kids.len(),
    decreases kids.len() - i,
{
    if i < kids.len() && !shares(kids[i], q) {
        lemma_match_from(kids, i + 1, q);
    }
}

/// What [`match_val`] returns lies between 0 and the number of `kids`.
pub proof fn lemma_match_val(kids: Seq<Tree>, path: Seq<Seq<char>>, n: int)
    ensures
        0 <= match_val(kids, path, n) <= kids.len(),
    decreases n,
{
    if n > 0 {
        lemma_match_from(kids, 0, path.take(n));
        lemma_match_val(kids, path, n - 1);
    }
}

/// What [`insert_at`] returns lies between 0 and the number of `kids`.
pub proof fn lemma_insert_at(kids: Seq<Tree>, path: Seq<Seq<char>>)
    ensures
        0 <= insert_at(kids, path) <= kids.len(),
{
    lemma_match_val(kids, path, path.len() as int);
    let near = match_val(kids, path, path.len() as int);
    if near < kids.len() {
        lemma_first_from(kids, near, Want::Break);
    }
}

/// A copy of the strings of `v` from index `from` up to index `to`.
pub fn copy_range(v: &Vec<String>, from: usize, to: usize) -> (out: Vec<String>)
    requires
        from <= to <= v@.len(),
    ensures
        strs(out@) == strs(v@).subrange(from as int, to as int),
{
    let mut out: Vec<String> = Vec::new();
    let mut i: usize = from;
    assert(strs(out@) =~= strs(v@).subrange(from as int, from as int));
    while i < to
        invariant
            from <= i <= to <= v@.len(),
            strs(out@) == strs(v@).subrange(from as int, i as int),
        decreases to - i,
    {
        let ghost before = strs(out@);
        let s = v[i].clone();
        out.push(s);
        assert(strs(out@) =~= before.push(v@[i as int]@));
        assert(strs(out@) =~= strs(v@).subrange(from as int, i + 1));
        i += 1;
    }
    out
}

/// The segments of a path joined by dots.
pub fn join_path(segs: &Vec<String>) -> (s: String)
    ensures
        s@ == join_dots(strs(segs@)),
{
    let mut s = String::new();
    let mut i: usize = 0;
    assert(s@ =~= join_dots(strs(segs@).take(0)));
    while i < segs.len()
        invariant
            i <= segs@.len(),
            s@ == join_dots(strs(segs@).take(i as int)),
        decreases segs@.len() - i,
    {
        let ghost part = strs(segs@).take(i + 1);
        assert(part.drop_last() =~= strs(segs@).take(i as int));
        assert(part.last() == segs@[i as int]@);
        if i > 0 {
            s.append(".");
        } else {
            assert(s@ =~= Seq::<char>::empty());
            assert(Seq::<char>::empty() + segs@[i as int]@ =~= segs@[i as int]@);
        }
        s.append(segs[i].as_str());
        i += 1;
    }
    assert(strs(segs@).take(segs@.len() as int) =~= strs(segs@));
    s
}

/// The text of a new entry.
pub fn make_entry_text(indent: usize, key: &str, val: &str) -> (s: String)
    ensures
        s@ == entry_text(indent as nat, key@, val@),
{
    let mut s = String::from_str("\n  ");
    let mut i: usize = 0;
    assert(s@ =~= "\n  "@ + spaces(0));
    while i < indent
        invariant
            i <= indent,
            s@ == "\n  "@ + spaces(i as nat),
        decreases indent - i,
    {
        proof {
            reveal_strlit(" ");
            assert(spaces(i as nat) + " "@ =~= spaces((i + 1) as nat));
            assert(("\n  "@ + spaces(i as nat)) + " "@ =~= "\n  "@ + spaces((i + 1) as nat));
        }
        s.append(" ");
        i += 1;
    }
    s.append(key);
    s.append(" = ");
    s.append(val);
    s.append(";");
    s
}

/// Where the attribute set for a new entry stands, found from `node`, with
/// `name` read from its segment `from` on.
pub fn findattrset(node: &Node, name: &Vec<String>, from: usize) -> (r: Option<
    (Vec<usize>, usize, usize),
>)
    requires
        from <= name@.len(),
    ensures
        match r {
            Some((p, matched, levels)) => {
                &&& set_under(node@, strs(name@).skip(from as int)) == Some(
                    (ints(p@), matched as int, levels as int),
                )
                &&& node@.has(ints(p@))
                &&& node@.at(ints(p@)).is_kind(Kind::AttrSet)
                &&& from + matched < name@.len()
                &&& 2 * levels + (if node@.is_kind(Kind::AttrSet) {
                    0int
                } else {
                    1int
                }) <= p@.len()
            },
            None => set_under(node@, strs(name@).skip(from as int)) is None,
        },
    decreases node@, 1int,
{
    if node.is_kind(Kind::AttrSet) {
        return set_entry(node, name, from);
    }
    match down_child(node) {
        Some(j) => match findattrset(node.child(j), name, from) {
            Some((p, matched, levels)) => {
                let out = prepend(j, p);
                assert(ints(out@).skip(1) =~= ints(p@));
                Some((out, matched, levels))
            },
            None => None,
        },
        None => None,
    }
}

/// The same search among the entries of the attribute set `set`.
pub fn set_entry(set: &Node, name: &Vec<String>, from: usize) -> (r: Option<
    (Vec<usize>, usize, usize),
>)
    requires
        from <= name@.len(),
    ensures
        match r {
            Some((p, matched, levels)) => {
                &&& set_in(set@.kids(), 0, strs(name@).skip(from as int)) == Some(
                    (ints(p@), matched as int, levels as int),
                )
                &&& p@.len() > 0
                &&& 0 <= ints(p@)[0] < set@.kids().len()
                &&& set@.kids()[ints(p@)[0]].has(ints(p@).skip(1))
                &&& set@.kids()[ints(p@)[0]].at(ints(p@).skip(1)).is_kind(Kind::AttrSet)
                &&& from + matched < name@.len()
                &&& 2 * levels <= p@.len()
            },
            None => set_in(set@.kids(), 0, strs(name@).skip(from as int)) is None,
        },
    decreases set@, 0int,
{
    let ghost rest = strs(name@).skip(from as int);
    let total = name.len();
    let n = set.arity();
    let mut i: usize = 0;
    while i < n
        invariant
            i <= n == set@.kids().len(),
            from <= name@.len() == total,
            rest == strs(name@).skip(from as int),
            set_in(set@.kids(), 0, rest) == set_in(set@.kids(), i as int, rest),
        decreases n - i,
    {
        let entry = set.child(i);
        if entry.is_kind(Kind::KeyValue) {
            if let Some(key) = key_of_entry(entry) {
                if key.len() > 0 && match_key(&key, name, from) == Match::Prefix {
                    if let Some(base) = getcfgbase(entry) {
                        assert(opens(entry@, rest));
                        assert(strs(key@).len() < rest.len());
                        assert(rest.skip(key@.len() as int) =~= strs(name@).skip(
                            from + key@.len(),
                        ));
                        let reach = base.len();
                        assert(reach > 0);
                        match findattrset(entry, name, from + key.len()) {
                            Some((p, matched, levels)) => {
                                let depth = p.len();
                                assert(2 * levels + 1 <= depth);
                                let out = prepend(i, p);
                                assert(ints(out@).skip(1) =~= ints(p@));
                                return Some((out, key.len() + matched, levels + 1));
                            },
                            None => {
                                let out = prepend(i, base);
                                assert(ints(out@).skip(1) =~= ints(base@));
                                return Some((out, key.len(), 1));
                            },
                        }
                    }
                }
            }
        }
        assert(!opens(entry@, rest));
        i += 1;
    }
    None
}

/// Whether `entry` is an entry whose key begins with the first `n` segments of
/// `path`.
pub fn entry_shares(entry: &Node, path: &Vec<String>, n: usize) -> (r: bool)
    requires
        n <= path@.len(),
    ensures
        r == shares(entry@, strs(path@).take(n as int)),
{
    if !entry.is_kind(Kind::KeyValue) {
        return false;
    }
    match key_of_entry(entry) {
        None => false,
        Some(key) => {
            let ghost q = strs(path@).take(n as int);
            if key.len() < n {
                return false;
            }
            let mut i: usize = 0;
            while i < n
                invariant
                    i <= n <= key@.len(),
                    n <= path@.len(),
                    q == strs(path@).take(n as int),
                    entry@.is_kind(Kind::KeyValue),
                    entry_key(entry@) == Some(strs(key@)),
                    forall|j: int| 0 <= j < i ==> key@[j]@ == q[j],
                decreases n - i,
            {
                if key[i] != path[i] {
                    assert(strs(key@).take(n as int)[i as int] == key@[i as int]@);
                    assert(q[i as int] == path@[i as int]@);
                    assert(strs(key@).take(n as int) != q);
                    assert(entry_key(entry@).unwrap() == strs(key@));
                    return false;
                }
                i += 1;
            }
            assert(strs(key@).take(n as int) =~= q);
            assert(entry_key(entry@).unwrap() == strs(key@));
            true
        },
    }
}

/// The index of the entry of `set` that is nearest to `path`, trying its first
/// `n` segments and then fewer; the number of children if there is none.
pub fn matchval(set: &Node, path: &Vec<String>, n: usize) -> (r: usize)
    requires
        n <= path@.len(),
    ensures
        r == match_val(set@.kids(), strs(path@), n as int),
        r <= set@.kids().len(),
{
    let count = set.arity();
    let mut m: usize = n;
    proof {
        lemma_match_val(set@.kids(), strs(path@), n as int);
    }
    while m > 0
        invariant
            m <= n <= path@.len(),
            count == set@.kids().len(),
            match_val(set@.kids(), strs(path@), n as int) == match_val(
                set@.kids(),
                strs(path@),
                m as int,
            ),
        decreases m,
    {
        let ghost q = strs(path@).take(m as int);
        let mut i: usize = 0;
        while i < count
            invariant
                i <= count == set@.kids().len(),
                0 < m <= path@.len(),
                q == strs(path@).take(m as int),
                match_val(set@.kids(), strs(path@), n as int) == match_val(
                    set@.kids(),
                    strs(path@),
                    m as int,
                ),
                match_from(set@.kids(), 0, q) == match_from(set@.kids(), i as int, q),
            decreases count - i,
        {
            if entry_shares(set.child(i), path, m) {
                assert(match_from(set@.kids(), 0, q) == i);
                assert(match_val(set@.kids(), strs(path@), m as int) == i);
                return i;
            }
            i += 1;
        }
        assert(match_from(set@.kids(), 0, q) == count);
        assert(match_val(set@.kids(), strs(path@), m as int) == match_val(
            set@.kids(),
            strs(path@),
            m - 1,
        ));
        m -= 1;
    }
    count
}

/// The index at which a new entry for `path` is put among the children of
/// `set`.
pub fn insert_index(set: &Node, path: &Vec<String>) -> (at: usize)
    ensures
        at == insert_at(set@.kids(), strs(path@)),
        at <= set@.kids().len(),
{
    let count = set.arity();
    let last_but_one: usize = if count >= 2 {
        count - 2
    } else {
        0
    };
    let near = matchval(set, path, path.len());
    if near < count {
        let b = first_child(set, near, Want::Break);
        if b < count {
            return b;
        }
    }
    last_but_one
}

/// Puts `entry` into the attribute set at `set_path`, at the index that
/// [`insert_at`] gives for `path`.
pub fn insert_entry(root: &Node, set_path: &Vec<usize>, path: &Vec<String>, entry: Node) -> (out:
    Node)
    requires
        root@.has(ints(set_path@)),
    ensures
        out@ == with_entry(root@, ints(set_path@), strs(path@), entry@),
{
    assert(ints(set_path@).skip(0) =~= ints(set_path@));
    let set = root.get(set_path, 0);
    let at = insert_index(set, path);
    let mut new: Vec<Node> = Vec::new();
    new.push(entry);
    assert(views(new@) =~= seq![entry@]);
    let changed = set.splice(at, at, new);
    root.put(set_path, 0, changed)
}

/// Adds an entry for `path` with the value `val`, which no entry of `root` has.
pub fn addvalue(root: &Node, path: &Vec<String>, val: &str) -> (r: Option<Node>)
    requires
        cfg_base(root@) is Some,
    ensures
        r is Some == fits(new_entry_text(root@, strs(path@), val@)),
        r is Some ==> r.unwrap()@ == added(root@, strs(path@), val@) && exists|k: int|
            0 <= k <= root@.text().len() && r.unwrap()@.text() == root@.text().take(k)
                + new_entry_text(root@, strs(path@), val@) + root@.text().skip(k),
{
    assert(strs(path@).skip(0) =~= strs(path@));
    let found = findattrset(root, path, 0);
    let (set_path, matched, levels) = match found {
        Some(home) => home,
        None => match getcfgbase(root) {
            Some(base) => (base, 0, 0),
            None => vstd::pervasive::unreached(),
        },
    };
    let depth = set_path.len();
    assert(2 * levels <= depth);
    let rest = copy_range(path, matched, path.len());
    assert(strs(rest@) =~= strs(path@).skip(matched as int));
    let key = join_path(&rest);
    let text = make_entry_text(2 * levels, key.as_str(), val);
    match parse_tree(text.as_str()) {
        Some(entry) => {
            proof {
                lemma_with_entry_text(root@, ints(set_path@), strs(rest@), entry@);
            }
            Some(insert_entry(root, &set_path, &rest, entry))
        },
        None => None,
    }
}

/// Replaces the value at `value_path` by the tree of `val`; `None` where
/// `val` is too long to be parsed.
pub fn modvalue(root: &Node, value_path: &Vec<usize>, val: &str) -> (r: Option<Node>)
    requires
        root@.has(ints(value_path@)),
    ensures
        r is Some == fits(val@),
        r is Some ==> {
            &&& r.unwrap()@ == root@.put(ints(value_path@), syntax_tree(val@))
            &&& syntax_tree(val@).is_kind(Kind::Root)
            &&& syntax_tree(val@).text() == val@
            &&& r.unwrap()@.text() == text_before(root@, ints(value_path@)) + val@ + text_after(
                root@,
                ints(value_path@),
            )
        },
{
    assert(ints(value_path@).skip(0) =~= ints(value_path@));
    match parse_tree(val) {
        Some(new) => {
            proof {
                lemma_put_text(root@, ints(value_path@), new@);
            }
            Some(root.put(value_path, 0, new))
        },
        None => None,
    }
}

/// Writes the value `val` at `path` in the tree `root`.
pub fn write_in(root: &Node, path: &Vec<String>, val: &str) -> (r: Result<Node, WriteError>)
    ensures
        match r {
            Ok(out) => written(root@, strs(path@), val@) == Ok::<Tree, WriteError>(out@),
            Err(e) => written(root@, strs(path@), val@) == Err::<Tree, WriteError>(e),
        },
        value_path(root@, strs(path@)) is Ok && fits(val@) ==> r is Ok && value_text(
            r->Ok_0@,
            strs(path@),
        )
            == Ok::<Seq<char>, ReadError>(val@) && (r->Ok_0)@.text() == text_before(
            root@,
            value_path(root@, strs(path@))->Ok_0,
        ) + val@ + text_after(root@, value_path(root@, strs(path@))->Ok_0),
        cfg_base(root@) is Some && find_under(root@, strs(path@)) is None && fits(
            new_entry_text(root@, strs(path@), val@),
        ) ==> r is Ok && exists|k: int|
            0 <= k <= root@.text().len() && (r->Ok_0)@.text() == root@.text().take(k)
                + new_entry_text(root@, strs(path@), val@) + root@.text().skip(k),
{
    if getcfgbase(root).is_none() {
        return Err(WriteError::ParseError);
    }
    assert(strs(path@).skip(0) =~= strs(path@));
    match find_below(root, path, 0) {
        Some(p) => {
            proof {
                lemma_find_under(root@, strs(path@));
            }
            match value_of_entry(root, p) {
                Some(v) => match modvalue(root, &v, val) {
                    Some(out) => {
                        proof {
                            lemma_write_then_read(root@, strs(path@), syntax_tree(val@));
                        }
                        Ok(out)
                    },
                    None => Err(WriteError::ParseError),
                },
                None => Err(WriteError::ParseError),
            }
        },
        None => match addvalue(root, path, val) {
            Some(out) => Ok(out),
            None => Err(WriteError::ParseError),
        },
    }
}

/// Sets the attribute at the dotted path `query` of the Nix text `f` to the
/// value `val`, and returns the new text.
///
/// Where an entry has that path, its value is replaced. Where none has, a new
/// entry is added: in the attribute set that the entries on the way already
/// open for the path, or else in the attribute set of the file.
pub fn write(f: &str, query: &str, val: &str) -> (r: Result<String, WriteError>)
    ensures
        match r {
            Ok(s) => of_source(f@, written(syntax_tree(f@), split_dots(query@), val@)) == Ok::<
                Seq<char>,
                WriteError,
            >(s@),
            Err(e) => of_source(f@, written(syntax_tree(f@), split_dots(query@), val@)) == Err::<
                Seq<char>,
                WriteError,
            >(e),
        },
        fits(f@) && fits(val@) && value_path(syntax_tree(f@), split_dots(query@)) is Ok ==> r is Ok
            && (r->Ok_0)@ == text_before(
            syntax_tree(f@),
            value_path(syntax_tree(f@), split_dots(query@))->Ok_0,
        ) + val@ + text_after(
            syntax_tree(f@),
            value_path(syntax_tree(f@), split_dots(query@))->Ok_0,
        ),
        fits(f@) && cfg_base(syntax_tree(f@)) is Some && find_under(
            syntax_tree(f@),
            split_dots(query@),
        ) is None && fits(new_entry_text(syntax_tree(f@), split_dots(query@), val@)) ==> r is Ok
            && exists|k: int|
            0 <= k <= f@.len() && (r->Ok_0)@ == f@.take(k) + new_entry_text(
                syntax_tree(f@),
                split_dots(query@),
                val@,
            ) + f@.skip(k),
{
    match parse_tree(f) {
        Some(root) => {
            let path = split_path(query);
            match write_in(&root, &path, val) {
                Ok(out) => Ok(out.text()),
                Err(e) => Err(e),
            }
        },
        None => Err(WriteError::ParseError),
    }
}

/// The path from `root` to the list that `path` names, through the `with`
/// scopes that wrap it.
///
/// `ParseError` where `root` holds no attribute set; `NoAttr` where no entry
/// has that path; `ArrayError` where the entry has no value or its value is not
/// a list.
pub open spec fn list_path(root: Tree, path: Seq<Seq<char>>) -> Result<Seq<int>, WriteError> {
    if cfg_base(root) is None {
        Err(WriteError::ParseError)
    } else {
        match find_under(root, path) {
            None => Err(WriteError::NoAttr),
            Some(p) => {
                let j = first_from(root.at(p).kids(), 0, Want::Value);
                if j < root.at(p).kids().len() {
                    match list_under(root.at(p).kids()[j]) {
                        Some(l) => Ok(p.push(j) + l),
                        None => Err(WriteError::ArrayError),
                    }
                } else {
                    Err(WriteError::ArrayError)
                }
            },
        }
    }
}

/// The children `kids` of a list with `item` put in front of what closes it:
/// in front of the first child whose text is `]`, or, where a token with a line
/// break stands right before that child, in front of that token. Unchanged
/// where no child closes the list.
pub open spec fn append_one(kids: Seq<Tree>, item: Tree) -> Seq<Tree> {
    let close = first_from(kids, 0, Want::Close);
    if close >= kids.len() {
        kids
    } else if close > 0 && wanted(kids[close - 1], Want::Break) {
        kids.insert(close - 1, item)
    } else {
        kids.insert(close, item)
    }
}

/// The children `kids` of a list with each of `items` appended in turn.
pub open spec fn append_all(kids: Seq<Tree>, items: Seq<Tree>) -> Seq<Tree>
    decreases items.len(),
{
    if items.len() == 0 {
        kids
    } else {
        append_one(append_all(kids, items.drop_last()), items.last())
    }
}

/// The text that a new element of a list is parsed from: a line break, four
/// spaces and the element.
pub open spec fn item_text(item: Seq<char>) -> Seq<char> {
    "\n    "@ + item
}

/// The trees of the new elements `items`.
pub open spec fn item_trees(items: Seq<Seq<char>>) -> Seq<Tree> {
    Seq::new(items.len(), |i: int| syntax_tree(item_text(items[i])))
}

/// The texts that the new elements `items` are parsed from.
pub open spec fn item_texts(items: Seq<Seq<char>>) -> Seq<Seq<char>> {
    Seq::new(items.len(), |i: int| item_text(items[i]))
}

/// Whether the tree of each of the new elements `items` is a whole parsed text
/// that reads as what it was parsed from.
pub open spec fn items_kept(items: Seq<Seq<char>>) -> bool {
    forall|i: int|
        0 <= i < items.len() ==> (#[trigger] item_trees(items)[i]).is_kind(Kind::Root)
            && item_trees(items)[i].text() == item_text(items[i])
}

/// Whether each of the new elements `items` is short enough to be parsed.
pub open spec fn items_fit(items: Seq<Seq<char>>) -> bool {
    forall|i: int| 0 <= i < items.len() ==> fits(item_text(#[trigger] items[i]))
}

/// The tree `root` with the new elements `items` appended to the list at
/// `list_path`; `ParseError` where one of them is too long to be parsed.
pub open spec fn with_new_items(root: Tree, list_path: Seq<int>, items: Seq<Seq<char>>) -> Result<
    Tree,
    WriteError,
> {
    if items_fit(items) {
        Ok(with_items(root, list_path, item_trees(items)))
    } else {
        Err(WriteError::ParseError)
    }
}

/// The tree `root` with `items` appended to the list at `list_path`.
pub open spec fn with_items(root: Tree, list_path: Seq<int>, items: Seq<Tree>) -> Tree {
    let list = root.at(list_path);
    root.put(list_path, list.with_kids(append_all(list.kids(), items)))
}

/// What appending `items` to the list at `path` makes of the tree `root`.
///
/// Where no entry has that path, one is first written with the value `[ ]`,
/// the text of that tree is parsed afresh, and the items are appended to the
/// list found in it; `ArrayError` if it is still not to be found. `ParseError`
/// where a text that has to be parsed on the way is too long for that.
pub open spec fn appended(root: Tree, path: Seq<Seq<char>>, items: Seq<Seq<char>>) -> Result<
    Tree,
    WriteError,
> {
    match list_path(root, path) {
        Ok(l) => with_new_items(root, l, items),
        Err(WriteError::NoAttr) => {
            let text = added(root, path, "[ ]"@).text();
            if fits(new_entry_text(root, path, "[ ]"@)) && fits(text) {
                let made = syntax_tree(text);
                match list_path(made, path) {
                    Ok(l) => with_new_items(made, l, items),
                    Err(WriteError::ParseError) => Err(WriteError::ParseError),
                    Err(_) => Err(WriteError::ArrayError),
                }
            } else {
                Err(WriteError::ParseError)
            }
        },
        Err(e) => Err(e),
    }
}

/// The children `kids` of a list without the elements whose text is one of
/// `items`, and without the token with a line break that stands right before
/// such an element in what is left of the children before it.
pub open spec fn removed(kids: Seq<Tree>, items: Seq<Seq<char>>) -> Seq<Tree>
    decreases kids.len(),
{
    if kids.len() == 0 {
        Seq::empty()
    } else {
        let before = removed(kids.drop_last(), items);
        if kids.last().is_node() && items.contains(kids.last().text()) {
            if before.len() > 0 && wanted(before.last(), Want::Break) {
                before.drop_last()
            } else {
                before
            }
        } else {
            before.push(kids.last())
        }
    }
}

/// What removing `items` from the list at `path` makes of the tree `root`.
pub open spec fn without(root: Tree, path: Seq<Seq<char>>, items: Seq<Seq<char>>) -> Result<
    Tree,
    WriteError,
> {
    match list_path(root, path) {
        Ok(l) => Ok(root.put(l, root.at(l).with_kids(removed(root.at(l).kids(), items)))),
        Err(e) => Err(e),
    }
}

/// The tree `root` without the entry at `entry_path`, and without the token
/// that follows the entry if that token holds a line break.
pub open spec fn without_entry(root: Tree, entry_path: Seq<int>) -> Tree {
    let parent = entry_path.drop_last();
    let i = entry_path.last();
    let set = root.at(parent);
    let to = if i + 1 < set.kids().len() && wanted(set.kids()[i + 1], Want::Break) {
        i + 2
    } else {
        i + 1
    };
    root.put(parent, set.splice(i, to, Seq::empty()))
}

/// What deleting the entry at `path` makes of the tree `root`.
pub open spec fn dereffed(root: Tree, path: Seq<Seq<char>>) -> Result<Tree, WriteError> {
    if cfg_base(root) is None {
        Err(WriteError::ParseError)
    } else {
        match find_under(root, path) {
            None => Err(WriteError::NoAttr),
            Some(p) => Ok(without_entry(root, p)),
        }
    }
}

/// The path from `root` to the list that `path` names.
pub fn find_list_path(root: &Node, path: &Vec<String>) -> (r: Result<Vec<usize>, WriteError>)
    ensures
        match r {
            Ok(l) => list_path(root@, strs(path@)) == Ok::<Seq<int>, WriteError>(ints(l@))
                && root@.has(ints(l@)) && root@.at(ints(l@)).is_kind(Kind::List),
            Err(e) => list_path(root@, strs(path@)) == Err::<Seq<int>, WriteError>(e),
        },
{
    if getcfgbase(root).is_none() {
        return Err(WriteError::ParseError);
    }
    assert(strs(path@).skip(0) =~= strs(path@));
    match find_below(root, path, 0) {
        None => Err(WriteError::NoAttr),
        Some(p) => {
            proof {
                lemma_find_under(root@, strs(path@));
            }
            match value_of_entry(root, p) {
                None => Err(WriteError::ArrayError),
                Some(v) => {
                    assert(ints(v@).skip(0) =~= ints(v@));
                    match find_list(root.get(&v, 0)) {
                        None => Err(WriteError::ArrayError),
                        Some(l) => {
                            let ghost to_value = ints(v@);
                            let ghost to_list = ints(l@);
                            let mut out = v;
                            let mut l = l;
                            out.append(&mut l);
                            proof {
                                assert(ints(out@) =~= to_value + to_list);
                                lemma_at_join(root@, to_value, to_list);
                            }
                            Ok(out)
                        },
                    }
                },
            }
        },
    }
}

/// Appends each of `items` to the list `list`, in front of what closes it.
pub fn append_nodes(list: &Node, items: &Vec<Node>) -> (out: Node)
    ensures
        out@ == list@.with_kids(append_all(list@.kids(), views(items@))),
{
    let mut cur = list.clone_tree();
    let mut i: usize = 0;
    assert(views(items@).take(0) =~= Seq::<Tree>::empty());
    while i < items.len()
        invariant
            i <= items@.len(),
            cur@ == list@.with_kids(append_all(list@.kids(), views(items@).take(i as int))),
        decreases items@.len() - i,
    {
        let ghost part = views(items@).take(i + 1);
        assert(part.drop_last() =~= views(items@).take(i as int));
        assert(part.last() == items@[i as int]@);
        let ghost kids = cur@.kids();
        let close = first_child(&cur, 0, Want::Close);
        if close < cur.arity() {
            let at = if close > 0 && is_wanted(cur.child(close - 1), Want::Break) {
                close - 1
            } else {
                close
            };
            let mut new: Vec<Node> = Vec::new();
            new.push(items[i].clone_tree());
            assert(views(new@) =~= seq![items@[i as int]@]);
            let next = cur.splice(at, at, new);
            assert(kids.subrange(0, at as int) + seq![items@[i as int]@] + kids.subrange(
                at as int,
                kids.len() as int,
            ) =~= kids.insert(at as int, items@[i as int]@));
            cur = next;
        }
        i += 1;
    }
    assert(views(items@).take(items@.len() as int) =~= views(items@));
    cur
}

/// The trees of the new elements `items`; `None` where one of them is too
/// long to be parsed.
pub fn parse_items(items: &Vec<String>) -> (r: Option<Vec<Node>>)
    ensures
        r is Some == items_fit(strs(items@)),
        r is Some ==> views(r.unwrap()@) == item_trees(strs(items@)) && items_kept(strs(items@)),
{
    let mut out: Vec<Node> = Vec::new();
    let mut i: usize = 0;
    while i < items.len()
        invariant
            i <= items@.len(),
            out@.len() == i,
            forall|j: int| 0 <= j < i ==> fits(item_text(#[trigger] strs(items@)[j])),
            forall|j: int| 0 <= j < i ==> out@[j]@ == syntax_tree(item_text(items@[j]@)),
            forall|j: int|
                0 <= j < i ==> (#[trigger] item_trees(strs(items@))[j]).is_kind(Kind::Root)
                    && item_trees(strs(items@))[j].text() == item_text(strs(items@)[j]),
        decreases items@.len() - i,
    {
        let mut text = String::from_str("\n    ");
        text.append(items[i].as_str());
        match parse_tree(text.as_str()) {
            Some(node) => {
                out.push(node);
            },
            None => {
                assert(!fits(item_text(strs(items@)[i as int])));
                return None;
            },
        }
        i += 1;
    }
    assert(views(out@) =~= item_trees(strs(items@)));
    Some(out)
}

/// Appends `items` to the list at `list_path`.
pub fn addtoarr_aux(root: &Node, list_path: &Vec<usize>, items: &Vec<String>) -> (r: Result<
    Node,
    WriteError,
>)
    requires
        root@.has(ints(list_path@)),
    ensures
        match r {
            Ok(out) => with_new_items(root@, ints(list_path@), strs(items@)) == Ok::<
                Tree,
                WriteError,
            >(out@),
            Err(e) => with_new_items(root@, ints(list_path@), strs(items@)) == Err::<
                Tree,
                WriteError,
            >(e),
        },
        r is Ok ==> items_kept(strs(items@)),
{
    assert(ints(list_path@).skip(0) =~= ints(list_path@));
    let list = root.get(list_path, 0);
    match parse_items(items) {
        Some(new) => {
            let changed = append_nodes(list, &new);
            Ok(root.put(list_path, 0, changed))
        },
        None => Err(WriteError::ParseError),
    }
}

/// Appends `items` to the list at `path` in the tree `root`.
pub fn append_in(root: &Node, path: &Vec<String>, items: &Vec<String>) -> (r: Result<
    Node,
    WriteError,
>)
    ensures
        match r {
            Ok(out) => appended(root@, strs(path@), strs(items@)) == Ok::<Tree, WriteError>(out@),
            Err(e) => appended(root@, strs(path@), strs(items@)) == Err::<Tree, WriteError>(e),
        },
        r is Ok && list_path(root@, strs(path@)) is Ok && closed_list(
            root@.at(list_path(root@, strs(path@))->Ok_0).kids(),
        ) ==> array_values(root@, strs(path@)) is Ok && array_values((r->Ok_0)@, strs(path@))
            == Ok::<Seq<Seq<char>>, ReadError>(
            array_values(root@, strs(path@))->Ok_0 + item_texts(strs(items@)),
        ),
{
    match find_list_path(root, path) {
        Ok(l) => {
            let r = addtoarr_aux(root, &l, items);
            proof {
                let list = root@.at(ints(l@));
                let new = item_trees(strs(items@));
                if r is Ok && closed_list(list.kids()) {
                    reveal_strlit("\n    ");
                    reveal_strlit("]");
                    assert forall|k: int| 0 <= k < new.len() implies (#[trigger] new[k]).is_node()
                        && new[k].text() != "]"@ by {
                        assert(new[k].text() == item_text(strs(items@)[k]));
                        assert(new[k].text().len() >= 5);
                    }
                    lemma_append_all_elements(list.kids(), new);
                    lemma_elements_of_nodes(new);
                    assert(elements(new) =~= item_texts(strs(items@)));
                    lemma_array_after_put(
                        root@,
                        strs(path@),
                        list.with_kids(append_all(list.kids(), new)),
                    );
                }
            }
            r
        },
        Err(WriteError::NoAttr) => {
            let with_list = match addvalue(root, path, "[ ]") {
                Some(node) => node,
                None => {
                    return Err(WriteError::ParseError);
                },
            };
            let text = with_list.text();
            let made = match parse_tree(text.as_str()) {
                Some(node) => node,
                None => {
                    return Err(WriteError::ParseError);
                },
            };
            match find_list_path(&made, path) {
                Ok(l) => addtoarr_aux(&made, &l, items),
                Err(WriteError::ParseError) => Err(WriteError::ParseError),
                Err(_) => Err(WriteError::ArrayError),
            }
        },
        Err(e) => Err(e),
    }
}

/// Appends `items` to the list at the dotted path `query` of the Nix text `f`,
/// each on a line of its own before the closing bracket, and returns the new
/// text. Where no attribute has that path, an empty list is written there
/// first.
pub fn addtoarr(f: &str, query: &str, items: Vec<String>) -> (r: Result<String, WriteError>)
    ensures
        match r {
            Ok(s) => of_source(f@, appended(syntax_tree(f@), split_dots(query@), strs(items@))) == Ok::<
                Seq<char>,
                WriteError,
            >(s@),
            Err(e) => of_source(f@, appended(syntax_tree(f@), split_dots(query@), strs(items@))) == Err::<
                Seq<char>,
                WriteError,
            >(e),
        },
{
    match parse_tree(f) {
        Some(root) => {
            let path = split_path(query);
            match append_in(&root, &path, &items) {
                Ok(out) => Ok(out.text()),
                Err(e) => Err(e),
            }
        },
        None => Err(WriteError::ParseError),
    }
}

/// Whether `text` is one of `items`.
pub fn is_listed(items: &Vec<String>, text: &String) -> (r: bool)
    ensures
        r == strs(items@).contains(text@),
{
    let mut i: usize = 0;
    while i < items.len()
        invariant
            i <= items@.len(),
            forall|j: int| 0 <= j < i ==> strs(items@)[j] != text@,
        decreases items@.len() - i,
    {
        if items[i] == *text {
            assert(strs(items@)[i as int] == text@);
            return true;
        }
        i += 1;
    }
    false
}

/// The list `list` without the elements whose text is one of `items`, and
/// without the line breaks before them.
pub fn rmarr_aux(list: &Node, items: &Vec<String>) -> (out: Node)
    ensures
        out@ == list@.with_kids(removed(list@.kids(), strs(items@))),
{
    let n = list.arity();
    let mut kept: Vec<Node> = Vec::new();
    let mut i: usize = 0;
    assert(views(kept@) =~= removed(list@.kids().take(0), strs(items@)));
    while i < n
        invariant
            i <= n == list@.kids().len(),
            views(kept@) == removed(list@.kids().take(i as int), strs(items@)),
        decreases n - i,
    {
        let c = list.child(i);
        let ghost part = list@.kids().take(i + 1);
        assert(part.drop_last() =~= list@.kids().take(i as int));
        assert(part.last() == c@);
        let ghost before = kept@;
        let gone = if c.is_node() {
            let t = c.text();
            is_listed(items, &t)
        } else {
            false
        };
        if gone {
            let k = kept.len();
            if k > 0 && is_wanted(&kept[k - 1], Want::Break) {
                kept.pop();
                assert(views(kept@) =~= views(before).drop_last());
            }
        } else {
            kept.push(c.clone_tree());
            assert(views(kept@) =~= views(before).push(c@));
        }
        i += 1;
    }
    assert(list@.kids().take(n as int) =~= list@.kids());
    let ghost all = views(kept@);
    let out = list.splice(0, n, kept);
    assert(list@.kids().subrange(0, 0) + all + list@.kids().subrange(n as int, n as int) =~= all);
    out
}

/// Removes `items` from the list at `path` in the tree `root`.
pub fn remove_in(root: &Node, path: &Vec<String>, items: &Vec<String>) -> (r: Result<
    Node,
    WriteError,
>)
    ensures
        match r {
            Ok(out) => without(root@, strs(path@), strs(items@)) == Ok::<Tree, WriteError>(out@),
            Err(e) => without(root@, strs(path@), strs(items@)) == Err::<Tree, WriteError>(e),
        },
        r is Ok ==> array_values(root@, strs(path@)) is Ok && array_values(
            (r->Ok_0)@,
            strs(path@),
        ) == Ok::<Seq<Seq<char>>, ReadError>(
            kept(array_values(root@, strs(path@))->Ok_0, strs(items@)),
        ),
{
    match find_list_path(root, path) {
        Ok(l) => {
            assert(ints(l@).skip(0) =~= ints(l@));
            let changed = rmarr_aux(root.get(&l, 0), items);
            proof {
                lemma_array_after_put(root@, strs(path@), changed@);
                lemma_removed_elements(root@.at(ints(l@)).kids(), strs(items@));
            }
            Ok(root.put(&l, 0, changed))
        },
        Err(e) => Err(e),
    }
}

/// Removes every element whose text is one of `items` from the list at the
/// dotted path `query` of the Nix text `f`, with the line break before it, and
/// returns the new text.
pub fn rmarr(f: &str, query: &str, items: Vec<String>) -> (r: Result<String, WriteError>)
    ensures
        match r {
            Ok(s) => of_source(f@, without(syntax_tree(f@), split_dots(query@), strs(items@))) == Ok::<
                Seq<char>,
                WriteError,
            >(s@),
            Err(e) => of_source(f@, without(syntax_tree(f@), split_dots(query@), strs(items@))) == Err::<
                Seq<char>,
                WriteError,
            >(e),
        },
{
    match parse_tree(f) {
        Some(root) => {
            let path = split_path(query);
            match remove_in(&root, &path, &items) {
                Ok(out) => Ok(out.text()),
                Err(e) => Err(e),
            }
        },
        None => Err(WriteError::ParseError),
    }
}

/// Removes the entry at `entry_path`, and the token that follows it if that
/// token holds a line break.
pub fn deref_aux(root: &Node, entry_path: &Vec<usize>) -> (out: Node)
    requires
        entry_path@.len() > 0,
        root@.has(ints(entry_path@)),
    ensures
        out@ == without_entry(root@, ints(entry_path@)),
{
    let last = entry_path.len() - 1;
    let i = entry_path[last];
    let mut parent: Vec<usize> = Vec::new();
    let mut k: usize = 0;
    while k < last
        invariant
            k <= last < entry_path@.len(),
            parent@ == entry_path@.take(k as int),
        decreases last - k,
    {
        parent.push(entry_path[k]);
        assert(parent@ =~= entry_path@.take(k + 1));
        k += 1;
    }
    proof {
        reveal_with_fuel(Tree::has, 2);
        assert(ints(parent@) =~= ints(entry_path@).drop_last());
        assert(ints(parent@) + seq![i as int] =~= ints(entry_path@));
        lemma_has_split(root@, ints(parent@), seq![i as int]);
        assert(ints(parent@).skip(0) =~= ints(parent@));
    }
    let set = root.get(&parent, 0);
    let count = set.arity();
    let to = if i + 1 < count && is_wanted(set.child(i + 1), Want::Break) {
        i + 2
    } else {
        i + 1
    };
    let nothing: Vec<Node> = Vec::new();
    assert(views(nothing@) =~= Seq::<Tree>::empty());
    let changed = set.splice(i, to, nothing);
    root.put(&parent, 0, changed)
}

/// Deletes the entry at `path` from the tree `root`.
pub fn delete_in(root: &Node, path: &Vec<String>) -> (r: Result<Node, WriteError>)
    ensures
        match r {
            Ok(out) => dereffed(root@, strs(path@)) == Ok::<Tree, WriteError>(out@) && exists|
                a: int,
                b: int,
            |
                0 <= a <= b <= root@.text().len() && out@.text() == root@.text().take(a)
                    + root@.text().skip(b),
            Err(e) => dereffed(root@, strs(path@)) == Err::<Tree, WriteError>(e),
        },
        r is Ok && once_under(root@, strs(path@)) ==> value_text((r->Ok_0)@, strs(path@)) == Err::<
            Seq<char>,
            ReadError,
        >(ReadError::NoAttr),
{
    if getcfgbase(root).is_none() {
        return Err(WriteError::ParseError);
    }
    assert(strs(path@).skip(0) =~= strs(path@));
    match find_below(root, path, 0) {
        None => Err(WriteError::NoAttr),
        Some(p) => {
            proof {
                lemma_find_under(root@, strs(path@));
                lemma_without_entry_text(root@, ints(p@));
                lemma_deref_then_read(root@, strs(path@));
            }
            Ok(deref_aux(root, &p))
        },
    }
}

/// Deletes the entry at the dotted path `query` from the Nix text `f`, with
/// the line break that follows it, and returns the new text.
pub fn deref(f: &str, query: &str) -> (r: Result<String, WriteError>)
    ensures
        match r {
            Ok(s) => of_source(f@, dereffed(syntax_tree(f@), split_dots(query@))) == Ok::<
                Seq<char>,
                WriteError,
            >(s@) && exists|a: int, b: int|
                0 <= a <= b <= f@.len() && s@ == f@.take(a) + f@.skip(b),
            Err(e) => of_source(f@, dereffed(syntax_tree(f@), split_dots(query@))) == Err::<
                Seq<char>,
                WriteError,
            >(e),
        },
{
    match parse_tree(f) {
        Some(root) => {
            let path = split_path(query);
            match delete_in(&root, &path) {
                Ok(out) => Ok(out.text()),
                Err(e) => Err(e),
            }
        },
        None => Err(WriteError::ParseError),
    }
}

} // verus!
