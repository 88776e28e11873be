//! What holds of reading and editing together, proved of every tree.
use crate::parse::{cfg_base, down, entry_key, find_in, find_under, first_from, last_node};
use crate::parse::{lemma_find_in, lemma_find_under, lemma_first_from, strict_prefix, wanted};
use crate::parse::{with_body, Want};
use crate::read::{array_values, elements, list_under, value_path, value_text, ReadError};
use crate::tree::{lemma_at_join, lemma_has_split, lemma_texts_concat, lemma_texts_one, texts};
use crate::tree::{Kind, Tree};
use crate::write::{append_all, append_one, dereffed, insert_at, lemma_insert_at, removed};
use crate::write::{list_path, with_entry, without_entry};
use vstd::prelude::*;

verus! {

/// Whether two lists of children have inner nodes at the same places and
/// keys at the same places.
pub open spec fn same_shape(a: Seq<Tree>, b: Seq<Tree>) -> bool {
    &&& a.len() == b.len()
    &&& forall|k: int|
        0 <= k < a.len() ==> a[k].is_node() == b[k].is_node() && a[k].is_kind(Kind::Key)
            == b[k].is_kind(Kind::Key)
}

/// Looking for a key, a value or an inner node finds the same place in lists
/// of the same shape.
pub proof fn lemma_shape_first(a: Seq<Tree>, b: Seq<Tree>, from: int, w: Want)
    requires
        same_shape(a, b),
        w == Want::Key || w == Want::Value || w == Want::Node,
    ensures
        first_from(a, from, w) == first_from(b, from, w),
    decreases a.len() - from,
{
    if 0 <= from < a.len() && !wanted(a[from], w) {
        lemma_shape_first(a, b, from + 1, w);
    }
}

/// The last inner node stands at the same place in lists of the same shape.
pub proof fn lemma_shape_last(a: Seq<Tree>, b: Seq<Tree>)
    requires
        same_shape(a, b),
    ensures
        last_node(a) == last_node(b),
    decreases a.len(),
{
    if a.len() > 0 && !a.last().is_node() {
        lemma_shape_last(a.drop_last(), b.drop_last());
    }
}

/// A node leads on to an attribute set through the same child when its
/// children keep their shape.
pub proof fn lemma_shape_down(kind: Kind, a: Seq<Tree>, b: Seq<Tree>)
    requires
        same_shape(a, b),
    ensures
        down(kind, a) == down(kind, b),
{
    lemma_shape_last(a, b);
    lemma_shape_first(a, b, 0, Want::Node);
    lemma_shape_first(a, b, 0, Want::Value);
}

/// Replacing something strictly below a node leaves the node its kind and
/// replaces one child.
pub proof fn lemma_put_below(t: Tree, p: Seq<int>, v: Tree)
    requires
        p.len() > 0,
        t.has(p),
    ensures
        t.put(p, v) == t.with_kids(t.kids().update(p[0], t.kids()[p[0]].put(p.skip(1), v))),
        t.put(p, v).is_node() && t.is_node(),
        forall|k: Kind| t.put(p, v).is_kind(k) == t.is_kind(k),
{
}

/// What was put at a path stands there.
pub proof fn lemma_put_at(t: Tree, p: Seq<int>, v: Tree)
    requires
        t.has(p),
    ensures
        t.put(p, v).has(p),
        t.put(p, v).at(p) == v,
    decreases p.len(),
{
    if p.len() > 0 {
        lemma_put_at(t.kids()[p[0]], p.skip(1), v);
    }
}

/// Replacing the child `j` of the node at `p` changes that node in this child
/// alone.
pub proof fn lemma_put_child(t: Tree, p: Seq<int>, j: int, v: Tree)
    requires
        t.has(p),
        0 <= j < t.at(p).kids().len(),
    ensures
        t.has(p.push(j)),
        t.put(p.push(j), v).has(p),
        t.put(p.push(j), v).at(p) == t.at(p).with_kids(t.at(p).kids().update(j, v)),
    decreases p.len(),
{
    reveal_with_fuel(Tree::has, 2);
    reveal_with_fuel(Tree::put, 2);
    if p.len() == 0 {
        assert(p.push(j) =~= seq![j]);
        assert(seq![j].skip(1) =~= Seq::<int>::empty());
    } else {
        lemma_put_child(t.kids()[p[0]], p.skip(1), j, v);
        assert(p.push(j).skip(1) =~= p.skip(1).push(j));
        assert(p.push(j)[0] == p[0]);
    }
}

/// The key of an entry stays what it was when one child that is not a key is
/// replaced by another that is not a key, both inner nodes.
pub proof fn lemma_key_kept(e: Tree, d: int, c: Tree)
    requires
        0 <= d < e.kids().len(),
        e.kids()[d].is_node() && !e.kids()[d].is_kind(Kind::Key),
        c.is_node() && !c.is_kind(Kind::Key),
    ensures
        entry_key(e.with_kids(e.kids().update(d, c))) == entry_key(e),
        same_shape(e.kids(), e.kids().update(d, c)),
{
    let a = e.kids();
    let b = a.update(d, c);
    assert(same_shape(a, b));
    lemma_shape_first(a, b, 0, Want::Key);
    lemma_first_from(a, 0, Want::Key);
    if e is Inner {
        assert(e.with_kids(b).kids() == b);
    }
}

/// Writing does not move an entry: where an entry of the attribute set that `t`
/// holds has `path`, and its value is replaced by `v`, the same entry has
/// `path` afterwards.
pub proof fn lemma_find_after_put(t: Tree, path: Seq<Seq<char>>, v: Tree)
    requires
        find_under(t, path) is Some,
        first_from(t.at(find_under(t, path).unwrap()).kids(), 0, Want::Value) < t.at(
            find_under(t, path).unwrap(),
        ).kids().len(),
        v.is_node(),
        !v.is_kind(Kind::Key),
    ensures
        t.has(find_under(t, path).unwrap()),
        find_under(
            t.put(
                find_under(t, path).unwrap().push(
                    first_from(t.at(find_under(t, path).unwrap()).kids(), 0, Want::Value),
                ),
                v,
            ),
            path,
        ) == find_under(t, path),
    decreases t, 0int,
{
    let p = find_under(t, path).unwrap();
    lemma_find_under(t, path);
    let j = first_from(t.at(p).kids(), 0, Want::Value);
    lemma_first_from(t.at(p).kids(), 0, Want::Value);
    let q = p.push(j);
    lemma_put_child(t, p, j, v);
    lemma_put_below(t, q, v);
    assert(q[0] == p[0]);
    assert(q.skip(1) =~= p.skip(1).push(j));
    match t {
        Tree::Token(_) => {},
        Tree::Inner(kind, kids) => {
            let changed = kids.update(p[0], kids[p[0]].put(q.skip(1), v));
            if kind == Kind::AttrSet {
                lemma_find_in_after_put(kids, 0, path, v);
            } else {
                let d = down(kind, kids);
                let sub = find_under(kids[d], path).unwrap();
                assert(p =~= seq![d] + sub);
                assert(p.skip(1) =~= sub);
                lemma_find_under(kids[d], path);
                lemma_find_after_put(kids[d], path, v);
                lemma_put_child(kids[d], sub, j, v);
                lemma_put_below(kids[d], sub.push(j), v);
                assert(same_shape(kids, changed));
                lemma_shape_down(kind, kids, changed);
            }
        },
    }
}

/// The same among the children `kids` of an attribute set, from index `i` on.
pub proof fn lemma_find_in_after_put(kids: Seq<Tree>, i: int, path: Seq<Seq<char>>, v: Tree)
    requires
        0 <= i,
        find_in(kids, i, path) is Some,
        first_from(
            kids[find_in(kids, i, path).unwrap()[0]].at(
                find_in(kids, i, path).unwrap().skip(1),
            ).kids(),
            0,
            Want::Value,
        ) < kids[find_in(kids, i, path).unwrap()[0]].at(
            find_in(kids, i, path).unwrap().skip(1),
        ).kids().len(),
        v.is_node(),
        !v.is_kind(Kind::Key),
    ensures
        find_in(
            kids.update(
                find_in(kids, i, path).unwrap()[0],
                kids[find_in(kids, i, path).unwrap()[0]].put(
                    find_in(kids, i, path).unwrap().skip(1).push(
                        first_from(
                            kids[find_in(kids, i, path).unwrap()[0]].at(
                                find_in(kids, i, path).unwrap().skip(1),
                            ).kids(),
                            0,
                            Want::Value,
                        ),
                    ),
                    v,
                ),
            ),
            i,
            path,
        ) == find_in(kids, i, path),
    decreases kids, kids.len() - i,
{
    let p = find_in(kids, i, path).unwrap();
    lemma_find_in(kids, i, path);
    let e = kids[p[0]];
    let rest = p.skip(1);
    let j = first_from(e.at(rest).kids(), 0, Want::Value);
    lemma_first_from(e.at(rest).kids(), 0, Want::Value);
    let changed = kids.update(p[0], e.put(rest.push(j), v));
    let key = entry_key(kids[i]);
    lemma_put_child(e, rest, j, v);
    lemma_put_below(e, rest.push(j), v);
    if kids[i].is_kind(Kind::KeyValue) && key == Some(path) {
        assert(p =~= seq![i]);
        assert(rest =~= Seq::<int>::empty());
        assert(rest.push(j) =~= seq![j]);
        assert(seq![j].skip(1) =~= Seq::<int>::empty());
        assert(e.kids()[j].put(seq![j].skip(1), v) == v);
        lemma_key_kept(e, j, v);
    } else if kids[i].is_kind(Kind::KeyValue) && key is Some && strict_prefix(key.unwrap(), path)
        && find_under(kids[i], path.skip(key.unwrap().len() as int)) is Some {
        let tail = path.skip(key.unwrap().len() as int);
        let sub = find_under(kids[i], tail).unwrap();
        assert(p =~= seq![i] + sub);
        assert(rest =~= sub);
        lemma_find_under(e, tail);
        lemma_find_after_put(e, tail, v);
        let d = down(Kind::KeyValue, e.kids());
        assert(sub[0] == d);
        lemma_first_from(e.kids(), 0, Want::Value);
        assert(rest.push(j)[0] == d);
        let c = e.kids()[d].put(rest.push(j).skip(1), v);
        assert(rest.push(j).skip(1).len() > 0);
        lemma_put_below(e.kids()[d], rest.push(j).skip(1), v);
        lemma_key_kept(e, d, c);
    } else {
        lemma_find_in(kids, i + 1, path);
        lemma_find_in_after_put(kids, i + 1, path, v);
        assert(changed[i] == kids[i]);
    }
}

/// What was written is what is read: where the entry that `path` names has a
/// value, and that value is replaced by `v`, an inner node that is no key, the
/// value that `path` names is `v` and reads as the text of `v`.
pub proof fn lemma_write_then_read(root: Tree, path: Seq<Seq<char>>, v: Tree)
    requires
        value_path(root, path) is Ok,
        v.is_node(),
        !v.is_kind(Kind::Key),
    ensures
        value_path(root.put(value_path(root, path)->Ok_0, v), path) == value_path(root, path),
        value_text(root.put(value_path(root, path)->Ok_0, v), path) == Ok::<Seq<char>, ReadError>(
            v.text(),
        ),
{
    let p = find_under(root, path).unwrap();
    let j = first_from(root.at(p).kids(), 0, Want::Value);
    let q = p.push(j);
    let new = root.put(q, v);
    lemma_find_under(root, path);
    lemma_first_from(root.at(p).kids(), 0, Want::Value);
    lemma_find_after_put(root, path, v);
    lemma_find_under(new, path);
    lemma_put_child(root, p, j, v);
    lemma_put_at(root, q, v);
    let kids = root.at(p).kids();
    lemma_key_kept(root.at(p), j, v);
    lemma_shape_first(kids, kids.update(j, v), 0, Want::Value);
    assert(new.at(p).kids() == kids.update(j, v));
}

/// Whether one entry alone answers to `path` below `t`: the one that is found,
/// and none after it, in every attribute set on the way to it.
pub open spec fn once_under(t: Tree, path: Seq<Seq<char>>) -> bool
    decreases t, 0int,
{
    match t {
        Tree::Token(_) => false,
        Tree::Inner(kind, kids) => if kind == Kind::AttrSet {
            once_in(kids, 0, path)
        } else {
            let d = down(kind, kids);
            0 <= d < kids.len() && once_under(kids[d], path)
        },
    }
}

/// The same among the children `kids` of an attribute set, from index `i` on.
pub open spec fn once_in(kids: Seq<Tree>, i: int, path: Seq<Seq<char>>) -> bool
    decreases kids, kids.len() - i,
{
    if i < 0 || i >= kids.len() {
        false
    } else {
        let key = entry_key(kids[i]);
        if kids[i].is_kind(Kind::KeyValue) && key == Some(path) {
            find_in(kids, i + 1, path) is None
        } else if kids[i].is_kind(Kind::KeyValue) && key is Some && strict_prefix(
            key.unwrap(),
            path,
        ) && find_under(kids[i], path.skip(key.unwrap().len() as int)) is Some {
            once_under(kids[i], path.skip(key.unwrap().len() as int)) && find_in(
                kids,
                i + 1,
                path,
            ) is None
        } else {
            once_in(kids, i + 1, path)
        }
    }
}

/// The index behind what deleting the child `i` of `kids` takes away: the
/// child, and the token after it if that holds a line break.
pub open spec fn cut_end(kids: Seq<Tree>, i: int) -> int {
    if i + 1 < kids.len() && wanted(kids[i + 1], Want::Break) {
        i + 2
    } else {
        i + 1
    }
}

/// The children `kids` of a node after the entry at the path `p` from that
/// node is deleted.
pub open spec fn cut(kids: Seq<Tree>, p: Seq<int>) -> Seq<Tree> {
    if p.len() == 1 {
        kids.take(p[0]) + kids.skip(cut_end(kids, p[0]))
    } else {
        kids.update(p[0], without_entry(kids[p[0]], p.skip(1)))
    }
}

/// Deleting the entry at `p` changes the children of a node on the way as
/// [`cut`] says, and leaves the node its kind.
pub proof fn lemma_without_entry_kids(t: Tree, p: Seq<int>)
    requires
        p.len() > 0,
        t.has(p),
    ensures
        t.is_node(),
        without_entry(t, p) == t.with_kids(cut(t.kids(), p)),
{
    let parent = p.drop_last();
    let i = p.last();
    assert(parent + seq![i] =~= p);
    lemma_has_split(t, parent, seq![i]);
    let set = t.at(parent);
    let to = cut_end(set.kids(), i);
    if p.len() == 1 {
        assert(parent =~= Seq::<int>::empty());
        assert(set.kids().subrange(0, i) + Seq::<Tree>::empty() + set.kids().subrange(
            to,
            set.kids().len() as int,
        ) =~= set.kids().take(i) + set.kids().skip(to));
    } else {
        assert(parent[0] == p[0]);
        assert(parent.skip(1) =~= p.skip(1).drop_last());
        assert(p.skip(1).last() == i);
        lemma_put_below(t, parent, set.splice(i, to, Seq::empty()));
    }
}

/// Whether the search finds nothing depends only on the children from the
/// index on where it starts.
pub proof fn lemma_find_in_shift(a: Seq<Tree>, sa: int, b: Seq<Tree>, sb: int, path: Seq<Seq<char>>)
    requires
        0 <= sa <= a.len(),
        0 <= sb <= b.len(),
        a.len() - sa == b.len() - sb,
        forall|k: int| sa <= k < a.len() ==> #[trigger] a[k] == b[k - sa + sb],
    ensures
        (find_in(a, sa, path) is None) == (find_in(b, sb, path) is None),
    decreases a.len() - sa,
{
    if sa < a.len() {
        assert(a[sa] == b[sb]);
        lemma_find_in_shift(a, sa + 1, b, sb + 1, path);
    }
}

/// After the one entry that answers to `path` is deleted, none does.
pub proof fn lemma_gone_under(t: Tree, path: Seq<Seq<char>>)
    requires
        find_under(t, path) is Some,
        once_under(t, path),
    ensures
        find_under(without_entry(t, find_under(t, path).unwrap()), path) is None,
        cfg_base(without_entry(t, find_under(t, path).unwrap())) is Some,
    decreases t, 0int,
{
    let p = find_under(t, path).unwrap();
    lemma_find_under(t, path);
    lemma_without_entry_kids(t, p);
    match t {
        Tree::Token(_) => {},
        Tree::Inner(kind, kids) => {
            if kind == Kind::AttrSet {
                lemma_gone_in(kids, 0, path);
            } else {
                let d = down(kind, kids);
                let sub = find_under(kids[d], path).unwrap();
                assert(p =~= seq![d] + sub);
                assert(p.skip(1) =~= sub);
                lemma_find_under(kids[d], path);
                lemma_gone_under(kids[d], path);
                lemma_without_entry_kids(kids[d], sub);
                let changed = cut(kids, p);
                assert(same_shape(kids, changed));
                lemma_shape_down(kind, kids, changed);
            }
        },
    }
}

/// The same among the children `kids` of an attribute set, from index `i` on.
pub proof fn lemma_gone_in(kids: Seq<Tree>, i: int, path: Seq<Seq<char>>)
    requires
        0 <= i,
        find_in(kids, i, path) is Some,
        once_in(kids, i, path),
    ensures
        find_in(cut(kids, find_in(kids, i, path).unwrap()), i, path) is None,
    decreases kids, kids.len() - i,
{
    let p = find_in(kids, i, path).unwrap();
    lemma_find_in(kids, i, path);
    let changed = cut(kids, p);
    let key = entry_key(kids[i]);
    if kids[i].is_kind(Kind::KeyValue) && key == Some(path) {
        assert(p =~= seq![i]);
        let to = cut_end(kids, i);
        if to == i + 2 {
            assert(find_in(kids, i + 1, path) == find_in(kids, i + 2, path));
        }
        assert forall|k: int| to <= k < kids.len() implies #[trigger] kids[k] == changed[k - to
            + i] by {}
        lemma_find_in_shift(kids, to, changed, i, path);
    } else if kids[i].is_kind(Kind::KeyValue) && key is Some && strict_prefix(key.unwrap(), path)
        && find_under(kids[i], path.skip(key.unwrap().len() as int)) is Some {
        let e = kids[i];
        let tail = path.skip(key.unwrap().len() as int);
        let sub = find_under(e, tail).unwrap();
        assert(p =~= seq![i] + sub);
        assert(p.skip(1) =~= sub);
        lemma_find_under(e, tail);
        lemma_gone_under(e, tail);
        lemma_without_entry_kids(e, sub);
        let d = down(Kind::KeyValue, e.kids());
        assert(sub[0] == d);
        lemma_first_from(e.kids(), 0, Want::Value);
        assert(sub.len() >= 2) by {
            lemma_find_under(e.kids()[d], tail);
            assert(sub =~= seq![d] + find_under(e.kids()[d], tail).unwrap());
        }
        lemma_without_entry_kids(e.kids()[d], sub.skip(1));
        let c = without_entry(e.kids()[d], sub.skip(1));
        assert(cut(e.kids(), sub) == e.kids().update(d, c));
        lemma_key_kept(e, d, c);
        assert(changed[i] == without_entry(e, sub));
        assert forall|k: int| i + 1 <= k < kids.len() implies #[trigger] kids[k] == changed[k] by {}
        lemma_find_in_shift(kids, i + 1, changed, i + 1, path);
    } else {
        lemma_find_in(kids, i + 1, path);
        lemma_gone_in(kids, i + 1, path);
        assert(changed[i] == kids[i]);
    }
}

/// What was deleted is read no more, and nothing else is touched: where the
/// entry that `path` names is deleted, the attribute set that held it keeps
/// its other children as they were, in order, but for the token with a line
/// break that followed the entry; and where that entry alone answered to
/// `path`, reading `path` afterwards fails with `NoAttr`.
pub proof fn lemma_deref_then_read(root: Tree, path: Seq<Seq<char>>)
    requires
        dereffed(root, path) is Ok,
    ensures
        root.has(find_under(root, path).unwrap().drop_last()),
        (dereffed(root, path)->Ok_0).at(find_under(root, path).unwrap().drop_last()).kids() == cut(
            root.at(find_under(root, path).unwrap().drop_last()).kids(),
            seq![find_under(root, path).unwrap().last()],
        ),
        once_under(root, path) ==> value_text(dereffed(root, path)->Ok_0, path) == Err::<
            Seq<char>,
            ReadError,
        >(ReadError::NoAttr),
{
    let p = find_under(root, path).unwrap();
    lemma_find_under(root, path);
    let parent = p.drop_last();
    let i = p.last();
    assert(parent + seq![i] =~= p);
    lemma_has_split(root, parent, seq![i]);
    let set = root.at(parent);
    let to = cut_end(set.kids(), i);
    lemma_put_at(root, parent, set.splice(i, to, Seq::empty()));
    assert(set.kids().subrange(0, i) + Seq::<Tree>::empty() + set.kids().subrange(
        to,
        set.kids().len() as int,
    ) =~= set.kids().take(i) + set.kids().skip(to));
    if once_under(root, path) {
        lemma_gone_under(root, path);
    }
}

/// The text that stands before the subtree at `p` in the text of `t`.
pub open spec fn text_before(t: Tree, p: Seq<int>) -> Seq<char>
    decreases p.len(),
{
    if p.len() == 0 {
        Seq::empty()
    } else {
        texts(t.kids().take(p[0])) + text_before(t.kids()[p[0]], p.skip(1))
    }
}

/// The text that stands after the subtree at `p` in the text of `t`.
pub open spec fn text_after(t: Tree, p: Seq<int>) -> Seq<char>
    decreases p.len(),
{
    if p.len() == 0 {
        Seq::empty()
    } else {
        text_after(t.kids()[p[0]], p.skip(1)) + texts(t.kids().skip(p[0] + 1))
    }
}

/// The text of a list of children is the text before one of them, its own
/// text, and the text after it.
pub proof fn lemma_texts_around(kids: Seq<Tree>, i: int)
    requires
        0 <= i < kids.len(),
    ensures
        texts(kids) == texts(kids.take(i)) + kids[i].text() + texts(kids.skip(i + 1)),
{
    assert(kids =~= kids.take(i) + seq![kids[i]] + kids.skip(i + 1));
    lemma_texts_concat(kids.take(i) + seq![kids[i]], kids.skip(i + 1));
    lemma_texts_concat(kids.take(i), seq![kids[i]]);
    lemma_texts_one(kids[i]);
}

/// The text of a tree is the text before a subtree, the text of the subtree,
/// and the text after it.
pub proof fn lemma_text_around(t: Tree, p: Seq<int>)
    requires
        t.has(p),
    ensures
        t.text() == text_before(t, p) + t.at(p).text() + text_after(t, p),
    decreases p.len(),
{
    if p.len() == 0 {
        assert(t.text() =~= Seq::<char>::empty() + t.text() + Seq::<char>::empty());
    } else {
        lemma_text_around(t.kids()[p[0]], p.skip(1));
        lemma_texts_around(t.kids(), p[0]);
        let c = t.kids()[p[0]];
        assert(t.text() =~= texts(t.kids().take(p[0])) + text_before(c, p.skip(1)) + c.at(
            p.skip(1),
        ).text() + text_after(c, p.skip(1)) + texts(t.kids().skip(p[0] + 1)));
        assert(t.text() =~= text_before(t, p) + t.at(p).text() + text_after(t, p));
    }
}

/// An edit changes the text of what it replaces and no other: the text of a
/// tree in which `v` was put at `p` is the text that stood before that place,
/// the text of `v`, and the text that stood after it.
pub proof fn lemma_put_text(t: Tree, p: Seq<int>, v: Tree)
    requires
        t.has(p),
    ensures
        t.put(p, v).text() == text_before(t, p) + v.text() + text_after(t, p),
    decreases p.len(),
{
    if p.len() == 0 {
        assert(v.text() =~= Seq::<char>::empty() + v.text() + Seq::<char>::empty());
    } else {
        let c = t.kids()[p[0]];
        let new = c.put(p.skip(1), v);
        let changed = t.kids().update(p[0], new);
        lemma_put_text(c, p.skip(1), v);
        lemma_put_below(t, p, v);
        lemma_texts_around(changed, p[0]);
        assert(changed.take(p[0]) =~= t.kids().take(p[0]));
        assert(changed.skip(p[0] + 1) =~= t.kids().skip(p[0] + 1));
        assert(t.put(p, v).text() =~= texts(t.kids().take(p[0])) + text_before(c, p.skip(1))
            + v.text() + text_after(c, p.skip(1)) + texts(t.kids().skip(p[0] + 1)));
        assert(t.put(p, v).text() =~= text_before(t, p) + v.text() + text_after(t, p));
    }
}

/// The text of a node in which children were replaced is the text of the
/// children before them, the text of the new ones, and the text of the
/// children after them.
pub proof fn lemma_splice_text(t: Tree, from: int, to: int, new: Seq<Tree>)
    requires
        t.is_node(),
        0 <= from <= to <= t.kids().len(),
    ensures
        t.splice(from, to, new).text() == texts(t.kids().take(from)) + texts(new) + texts(
            t.kids().skip(to),
        ),
        t.text() == texts(t.kids().take(from)) + texts(t.kids().subrange(from, to)) + texts(
            t.kids().skip(to),
        ),
{
    let kids = t.kids();
    assert(kids.subrange(0, from) =~= kids.take(from));
    assert(kids.subrange(to, kids.len() as int) =~= kids.skip(to));
    lemma_texts_concat(kids.take(from) + new, kids.skip(to));
    lemma_texts_concat(kids.take(from), new);
    assert(kids =~= kids.take(from) + kids.subrange(from, to) + kids.skip(to));
    lemma_texts_concat(kids.take(from) + kids.subrange(from, to), kids.skip(to));
    lemma_texts_concat(kids.take(from), kids.subrange(from, to));
}

/// A new entry is put into the text and nothing else changes: the text of a
/// tree with a new entry is the old text with the text of the entry at one
/// place in it.
pub proof fn lemma_with_entry_text(root: Tree, set_path: Seq<int>, path: Seq<Seq<char>>, entry: Tree)
    requires
        root.has(set_path),
        root.at(set_path).is_node(),
    ensures
        exists|k: int|
            0 <= k <= root.text().len() && with_entry(root, set_path, path, entry).text()
                == root.text().take(k) + entry.text() + root.text().skip(k),
{
    let set = root.at(set_path);
    let at = insert_at(set.kids(), path);
    lemma_insert_at(set.kids(), path);
    lemma_splice_text(set, at, at, seq![entry]);
    lemma_texts_one(entry);
    assert(set.kids().subrange(at, at) =~= Seq::<Tree>::empty());
    lemma_put_text(root, set_path, set.splice(at, at, seq![entry]));
    lemma_text_around(root, set_path);
    let head = text_before(root, set_path) + texts(set.kids().take(at));
    let tail = texts(set.kids().skip(at)) + text_after(root, set_path);
    assert(root.text() =~= head + tail);
    assert(with_entry(root, set_path, path, entry).text() =~= head + entry.text() + tail);
    let k = head.len() as int;
    assert(root.text().take(k) =~= head);
    assert(root.text().skip(k) =~= tail);
}

/// An entry is taken out of the text and nothing else changes: the text of a
/// tree from which the entry at `p` was deleted is the old text without one
/// stretch of it.
pub proof fn lemma_without_entry_text(root: Tree, p: Seq<int>)
    requires
        p.len() > 0,
        root.has(p),
    ensures
        exists|a: int, b: int|
            0 <= a <= b <= root.text().len() && without_entry(root, p).text() == root.text().take(
                a,
            ) + root.text().skip(b),
{
    let parent = p.drop_last();
    let i = p.last();
    assert(parent + seq![i] =~= p);
    lemma_has_split(root, parent, seq![i]);
    let set = root.at(parent);
    let to = cut_end(set.kids(), i);
    lemma_splice_text(set, i, to, Seq::empty());
    lemma_put_text(root, parent, set.splice(i, to, Seq::empty()));
    lemma_text_around(root, parent);
    let head = text_before(root, parent) + texts(set.kids().take(i));
    let gone = texts(set.kids().subrange(i, to));
    let tail = texts(set.kids().skip(to)) + text_after(root, parent);
    assert(texts(Seq::<Tree>::empty()) =~= Seq::<char>::empty());
    assert(root.text() =~= head + gone + tail);
    assert(without_entry(root, p).text() =~= head + tail);
    let a = head.len() as int;
    let b = (head.len() + gone.len()) as int;
    assert(root.text().take(a) =~= head);
    assert(root.text().skip(b) =~= tail);
}

/// The texts of `elems` that are none of `items`, in order.
pub open spec fn kept(elems: Seq<Seq<char>>, items: Seq<Seq<char>>) -> Seq<Seq<char>>
    decreases elems.len(),
{
    if elems.len() == 0 {
        Seq::empty()
    } else if items.contains(elems.last()) {
        kept(elems.drop_last(), items)
    } else {
        kept(elems.drop_last(), items).push(elems.last())
    }
}

/// Nothing is taken from elements of which none is listed.
pub proof fn lemma_kept_all(elems: Seq<Seq<char>>, items: Seq<Seq<char>>)
    requires
        forall|k: int| 0 <= k < elems.len() ==> !items.contains(#[trigger] elems[k]),
    ensures
        kept(elems, items) == elems,
    decreases elems.len(),
{
    if elems.len() > 0 {
        lemma_kept_all(elems.drop_last(), items);
        assert(elems.drop_last().push(elems.last()) =~= elems);
    }
}

/// The elements of two lists of children, one after the other, are the
/// elements of the first and then those of the second.
pub proof fn lemma_elements_concat(a: Seq<Tree>, b: Seq<Tree>)
    ensures
        elements(a + b) == elements(a) + elements(b),
    decreases b.len(),
{
    if b.len() == 0 {
        assert(a + b =~= a);
        assert(elements(a) + elements(b) =~= elements(a));
    } else {
        lemma_elements_concat(a, b.drop_last());
        assert((a + b).drop_last() =~= a + b.drop_last());
        assert((a + b).last() == b.last());
        assert(elements(a + b) =~= elements(a) + elements(b));
    }
}

/// Children of which none is an inner node hold no elements.
pub proof fn lemma_elements_none(a: Seq<Tree>)
    requires
        forall|k: int| 0 <= k < a.len() ==> !(#[trigger] a[k]).is_node(),
    ensures
        elements(a) == Seq::<Seq<char>>::empty(),
    decreases a.len(),
{
    if a.len() > 0 {
        lemma_elements_none(a.drop_last());
    }
}

/// Removal takes the listed elements and keeps the others in their order.
pub proof fn lemma_removed_elements(kids: Seq<Tree>, items: Seq<Seq<char>>)
    ensures
        elements(removed(kids, items)) == kept(elements(kids), items),
    decreases kids.len(),
{
    if kids.len() > 0 {
        let before = removed(kids.drop_last(), items);
        lemma_removed_elements(kids.drop_last(), items);
        let last = kids.last();
        if last.is_node() && items.contains(last.text()) {
            assert(elements(kids).drop_last() =~= elements(kids.drop_last()));
            if before.len() > 0 && wanted(before.last(), Want::Break) {
                assert(elements(before) == elements(before.drop_last()));
            }
        } else if last.is_node() {
            assert(before.push(last).drop_last() =~= before);
            assert(elements(kids).drop_last() =~= elements(kids.drop_last()));
        } else {
            assert(before.push(last).drop_last() =~= before);
        }
    }
}

/// Whether the children `kids` of a list end as a list does: one of them
/// closes the list, and no element stands at or after the place where a new
/// element is put.
pub open spec fn closed_list(kids: Seq<Tree>) -> bool {
    let close = first_from(kids, 0, Want::Close);
    &&& close < kids.len()
    &&& forall|k: int| close <= k < kids.len() ==> !(#[trigger] kids[k]).is_node()
}

/// Appending to a list that ends as a list does puts the new element behind
/// all the others, and the list still ends as a list does.
pub proof fn lemma_append_one_elements(kids: Seq<Tree>, item: Tree)
    requires
        closed_list(kids),
        item.is_node(),
        item.text() != "]"@,
    ensures
        elements(append_one(kids, item)) == elements(kids).push(item.text()),
        closed_list(append_one(kids, item)),
{
    let close = first_from(kids, 0, Want::Close);
    lemma_first_from(kids, 0, Want::Close);
    let at = if close > 0 && wanted(kids[close - 1], Want::Break) {
        close - 1
    } else {
        close
    };
    let out = kids.insert(at, item);
    assert(out =~= kids.take(at) + seq![item] + kids.skip(at));
    assert(kids =~= kids.take(at) + kids.skip(at));
    lemma_elements_concat(kids.take(at) + seq![item], kids.skip(at));
    lemma_elements_concat(kids.take(at), seq![item]);
    lemma_elements_concat(kids.take(at), kids.skip(at));
    lemma_elements_none(kids.skip(at));
    assert(seq![item].drop_last() =~= Seq::<Tree>::empty());
    assert(elements(seq![item]) =~= seq![item.text()]) by {
        reveal_with_fuel(elements, 2);
    }
    assert(elements(out) =~= elements(kids).push(item.text()));
    lemma_first_from(out, 0, Want::Close);
    assert(wanted(out[close + 1], Want::Close));
    assert forall|j: int| 0 <= j <= close implies !wanted(#[trigger] out[j], Want::Close) by {
        if j < at {
            assert(out[j] == kids[j]);
        } else if j > at {
            assert(out[j] == kids[j - 1]);
        }
    }
    assert(first_from(out, 0, Want::Close) == close + 1);
    assert forall|k: int| close + 1 <= k < out.len() implies !(#[trigger] out[k]).is_node() by {
        assert(out[k] == kids[k - 1]);
    }
}

/// Appending several elements puts them behind all the others, in order.
pub proof fn lemma_append_all_elements(kids: Seq<Tree>, items: Seq<Tree>)
    requires
        closed_list(kids),
        forall|k: int| 0 <= k < items.len() ==> (#[trigger] items[k]).is_node() && items[k].text()
            != "]"@,
    ensures
        elements(append_all(kids, items)) == elements(kids) + elements(items),
        closed_list(append_all(kids, items)),
    decreases items.len(),
{
    if items.len() == 0 {
        assert(elements(kids) + elements(items) =~= elements(kids));
    } else {
        lemma_append_all_elements(kids, items.drop_last());
        lemma_append_one_elements(append_all(kids, items.drop_last()), items.last());
        assert(elements(items) == elements(items.drop_last()).push(items.last().text()));
        assert(elements(kids) + elements(items) =~= (elements(kids) + elements(
            items.drop_last(),
        )).push(items.last().text()));
    }
}

/// Appending and removing undo each other: where `x` and `y` are appended to a
/// list that ends as a list does, and `y` is then removed, the elements are
/// those that were there, in their order, and then `x`. This is so where `y` is
/// not an element already and is not `x`; an element that reads like `y` would
/// be removed with it.
pub proof fn lemma_append_then_remove(kids: Seq<Tree>, x: Tree, y: Tree)
    requires
        closed_list(kids),
        x.is_node() && y.is_node(),
        x.text() != "]"@ && y.text() != "]"@,
        x.text() != y.text(),
        !elements(kids).contains(y.text()),
    ensures
        elements(removed(append_all(kids, seq![x, y]), seq![y.text()])) == elements(kids).push(
            x.text(),
        ),
{
    let items = seq![x, y];
    let gone = seq![y.text()];
    lemma_append_all_elements(kids, items);
    lemma_removed_elements(append_all(kids, items), gone);
    assert(items.drop_last() =~= seq![x]);
    assert(seq![x].drop_last() =~= Seq::<Tree>::empty());
    assert(elements(items) =~= seq![x.text(), y.text()]) by {
        reveal_with_fuel(elements, 3);
    }
    let all = elements(kids) + seq![x.text(), y.text()];
    assert(all.last() == y.text());
    assert(gone[0] == y.text());
    assert(all.drop_last() =~= elements(kids).push(x.text()));
    assert forall|k: int| 0 <= k < all.drop_last().len() implies !gone.contains(
        #[trigger] all.drop_last()[k],
    ) by {
        if k < elements(kids).len() {
            assert(elements(kids).contains(all.drop_last()[k]));
        }
    }
    lemma_kept_all(all.drop_last(), gone);
}

/// Putting something at the end of two paths is putting, at the end of the
/// first, what is there with that thing put at the end of the second.
pub proof fn lemma_put_join(t: Tree, p: Seq<int>, q: Seq<int>, x: Tree)
    requires
        t.has(p),
        t.at(p).has(q),
    ensures
        t.put(p + q, x) == t.put(p, t.at(p).put(q, x)),
    decreases p.len(),
{
    if p.len() == 0 {
        assert(p + q =~= q);
    } else {
        lemma_at_join(t, p, q);
        lemma_put_join(t.kids()[p[0]], p.skip(1), q, x);
        assert((p + q).skip(1) =~= p.skip(1) + q);
        assert((p + q)[0] == p[0]);
    }
}

/// A value that is a list, wrapped in `with` scopes or not, is one still when
/// the list is replaced by another list, and the new list is found where the
/// old one was.
pub proof fn lemma_list_after_put(v: Tree, x: Tree)
    requires
        list_under(v) is Some,
        x.is_kind(Kind::List),
    ensures
        v.has(list_under(v).unwrap()),
        list_under(v.put(list_under(v).unwrap(), x)) == list_under(v),
        v.put(list_under(v).unwrap(), x).at(list_under(v).unwrap()) == x,
        v.put(list_under(v).unwrap(), x).is_node(),
        !v.put(list_under(v).unwrap(), x).is_kind(Kind::Key),
        v.is_node() && !v.is_kind(Kind::Key),
    decreases v,
{
    match v {
        Tree::Token(_) => {},
        Tree::Inner(kind, kids) => {
            if kind != Kind::List {
                let j = with_body(kids);
                let l = list_under(kids[j]).unwrap();
                lemma_list_after_put(kids[j], x);
                let p = seq![j] + l;
                assert(p.skip(1) =~= l);
                let changed = kids.update(j, kids[j].put(l, x));
                assert(same_shape(kids, changed));
                lemma_shape_last(kids, changed);
                lemma_shape_first(kids, changed, 0, Want::Node);
            }
        },
    }
}

/// The elements of a list that replaces another are what is read afterwards:
/// where `path` names a list and that list is replaced by the list `x`, reading
/// the elements at `path` gives the elements of `x`.
pub proof fn lemma_array_after_put(root: Tree, path: Seq<Seq<char>>, x: Tree)
    requires
        list_path(root, path) is Ok,
        x.is_kind(Kind::List),
    ensures
        root.has(list_path(root, path)->Ok_0),
        root.at(list_path(root, path)->Ok_0).is_kind(Kind::List),
        array_values(root, path) == Ok::<Seq<Seq<char>>, ReadError>(
            elements(root.at(list_path(root, path)->Ok_0).kids()),
        ),
        array_values(root.put(list_path(root, path)->Ok_0, x), path) == Ok::<
            Seq<Seq<char>>,
            ReadError,
        >(elements(x.kids())),
{
    let p = find_under(root, path).unwrap();
    lemma_find_under(root, path);
    let j = first_from(root.at(p).kids(), 0, Want::Value);
    lemma_first_from(root.at(p).kids(), 0, Want::Value);
    let vp = p.push(j);
    lemma_put_child(root, p, j, root.at(p).kids()[j]);
    assert(vp =~= p + seq![j]);
    assert(root.at(p).has(seq![j])) by {
        reveal_with_fuel(Tree::has, 2);
        assert(seq![j].skip(1) =~= Seq::<int>::empty());
    }
    lemma_at_join(root, p, seq![j]);
    assert(root.at(vp) == root.at(p).kids()[j]) by {
        reveal_with_fuel(Tree::at, 2);
        assert(seq![j].skip(1) =~= Seq::<int>::empty());
    }
    let v = root.at(vp);
    assert(list_under(v) is Some);
    let l = list_under(v).unwrap();
    assert(list_path(root, path)->Ok_0 == vp + l);
    lemma_list_under(v);
    lemma_list_after_put(v, x);
    lemma_at_join(root, vp, l);
    lemma_put_join(root, vp, l, x);
    let new_value = v.put(l, x);
    lemma_write_then_read(root, path, new_value);
    lemma_put_at(root, vp, new_value);
}

/// Whether the path that [`list_under`] gives for `v` leads to a list.
pub open spec fn list_under_is_list(v: Tree) -> bool {
    list_under(v) is Some ==> v.at(list_under(v).unwrap()).is_kind(Kind::List)
}

/// The path to the list that a value is leads to a list.
pub proof fn lemma_list_under(v: Tree)
    ensures
        list_under_is_list(v),
    decreases v,
{
    if list_under(v) is Some {
        match v {
            Tree::Token(_) => {},
            Tree::Inner(kind, kids) => {
                if kind != Kind::List {
                    let j = with_body(kids);
                    lemma_list_under(kids[j]);
                    assert((seq![j] + list_under(kids[j]).unwrap()).skip(1) =~= list_under(
                        kids[j],
                    ).unwrap());
                }
            },
        }
    }
}

/// The elements of inner nodes are their texts.
pub proof fn lemma_elements_of_nodes(items: Seq<Tree>)
    requires
        forall|k: int| 0 <= k < items.len() ==> (#[trigger] items[k]).is_node(),
    ensures
        elements(items) == Seq::new(items.len(), |k: int| items[k].text()),
    decreases items.len(),
{
    if items.len() > 0 {
        lemma_elements_of_nodes(items.drop_last());
        assert(elements(items) =~= Seq::new(items.len(), |k: int| items[k].text()));
    } else {
        assert(elements(items) =~= Seq::new(items.len(), |k: int| items[k].text()));
    }
}

} // verus!
