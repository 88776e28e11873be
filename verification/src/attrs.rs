//! The attributes of a whole attribute set, flattened: a mapping from each
//! full dotted path to the text of its value.
use crate::parse::{first_child, first_from, getkey, segments, strs, Want};
use crate::tree::{Kind, Node, Tree};
use crate::write::{join_dots, join_path};
use vstd::prelude::*;
use vstd::string::StringExecFns;

verus! {

/// The mapping that a list of names and a list of values of the same length
/// stand for: each name is mapped to the value at its index, a later one in
/// place of an earlier one of the same name.
pub open spec fn map_of(names: Seq<Seq<char>>, values: Seq<Seq<char>>) -> Map<
    Seq<char>,
    Seq<char>,
>
    decreases names.len(),
{
    if names.len() == 0 || values.len() != names.len() {
        Map::empty()
    } else {
        map_of(names.drop_last(), values.drop_last()).insert(names.last(), values.last())
    }
}

/// The names that are mapped are the names of the list, and they are finitely
/// many.
pub proof fn lemma_map_of_dom(names: Seq<Seq<char>>, values: Seq<Seq<char>>)
    requires
        names.len() == values.len(),
    ensures
        map_of(names, values).dom().finite(),
        forall|k: Seq<char>| map_of(names, values).dom().contains(k) <==> names.contains(k),
    decreases names.len(),
{
    if names.len() > 0 {
        lemma_map_of_dom(names.drop_last(), values.drop_last());
        assert forall|k: Seq<char>| map_of(names, values).dom().contains(k) <==> names.contains(
            k,
        ) by {
            if names.contains(k) {
                let i = choose|i: int| 0 <= i < names.len() && names[i] == k;
                if i < names.len() - 1 {
                    assert(names.drop_last()[i] == k);
                }
            }
            if names.drop_last().contains(k) {
                let i = choose|i: int| 0 <= i < names.len() - 1 && names.drop_last()[i] == k;
                assert(names[i] == k);
            }
        }
    }
}

/// Where no name occurs twice, as many names are mapped as the list holds, and
/// each is mapped to the value at its index.
pub proof fn lemma_map_of_distinct(names: Seq<Seq<char>>, values: Seq<Seq<char>>)
    requires
        names.len() == values.len(),
        names.no_duplicates(),
    ensures
        map_of(names, values).dom().len() == names.len(),
        forall|i: int| 0 <= i < names.len() ==> map_of(names, values)[#[trigger] names[i]] == values[i],
    decreases names.len(),
{
    if names.len() > 0 {
        let head = names.drop_last();
        lemma_map_of_dom(head, values.drop_last());
        lemma_map_of_distinct(head, values.drop_last());
        if head.contains(names.last()) {
            let i = choose|i: int| 0 <= i < head.len() && head[i] == names.last();
            assert(names[i] == names[names.len() - 1]);
        }
        assert forall|i: int| 0 <= i < names.len() implies map_of(names, values)[#[trigger] names[i]]
            == values[i] by {
            if i < names.len() - 1 {
                assert(head[i] == names[i]);
                assert(names[i] != names[names.len() - 1]);
            }
        }
    }
}

/// Changing the value at an index maps the name at that index to the new
/// value, where no name occurs twice.
pub proof fn lemma_map_of_update(names: Seq<Seq<char>>, values: Seq<Seq<char>>, i: int, v: Seq<char>)
    requires
        names.len() == values.len(),
        names.no_duplicates(),
        0 <= i < names.len(),
    ensures
        map_of(names, values.update(i, v)) == map_of(names, values).insert(names[i], v),
    decreases names.len(),
{
    let head = names.drop_last();
    let last = names.len() - 1;
    if i == last {
        assert(values.update(i, v).drop_last() =~= values.drop_last());
        assert(map_of(names, values.update(i, v)) =~= map_of(names, values).insert(names[i], v));
    } else {
        lemma_map_of_update(head, values.drop_last(), i, v);
        assert(values.update(i, v).drop_last() =~= values.drop_last().update(i, v));
        assert(names[i] != names[last]);
        assert(head[i] == names[i]);
        assert(map_of(names, values.update(i, v)) =~= map_of(names, values).insert(names[i], v));
    }
}

/// A mapping from full dotted paths to the texts of their values.
#[derive(Debug)]
pub struct AttrMap {
    names: Vec<String>,
    values: Vec<String>,
}

impl View for AttrMap {
    type V = Map<Seq<char>, Seq<char>>;

    closed spec fn view(&self) -> Map<Seq<char>, Seq<char>> {
        map_of(strs(self.names@), strs(self.values@))
    }
}

impl AttrMap {
    /// Every path has one value: no name is held twice.
    pub closed spec fn wf(&self) -> bool {
        self.names@.len() == self.values@.len() && strs(self.names@).no_duplicates()
    }

    /// An empty mapping.
    pub fn new() -> (m: AttrMap)
        ensures
            m.wf(),
            m@ == Map::<Seq<char>, Seq<char>>::empty(),
    {
        AttrMap { names: Vec::new(), values: Vec::new() }
    }

    /// The index at which `name` is held, if it is.
    fn index_of(&self, name: &String) -> (r: Option<usize>)
        requires
            self.wf(),
        ensures
            match r {
                Some(i) => i < self.names@.len() && self.names@[i as int]@ == name@,
                None => !strs(self.names@).contains(name@),
            },
    {
        let mut i: usize = 0;
        while i < self.names.len()
            invariant
                i <= self.names@.len(),
                forall|j: int| 0 <= j < i ==> strs(self.names@)[j] != name@,
            decreases self.names@.len() - i,
        {
            if self.names[i] == *name {
                return Some(i);
            }
            i += 1;
        }
        None
    }

    /// Maps `name` to `value`, in place of what it was mapped to before.
    pub fn insert(&mut self, name: String, value: String)
        requires
            old(self).wf(),
        ensures
            final(self).wf(),
            final(self)@ == old(self)@.insert(name@, value@),
    {
        let ghost names = strs(self.names@);
        let ghost values = strs(self.values@);
        match self.index_of(&name) {
            Some(i) => {
                self.values.remove(i);
                self.values.insert(i, value);
                proof {
                    assert(strs(self.values@) =~= values.update(i as int, value@));
                    lemma_map_of_update(names, values, i as int, value@);
                    assert(names[i as int] == name@);
                }
            },
            None => {
                self.names.push(name);
                self.values.push(value);
                proof {
                    assert(strs(self.names@) =~= names.push(name@));
                    assert(strs(self.values@) =~= values.push(value@));
                    assert(names.push(name@).drop_last() =~= names);
                    assert(values.push(value@).drop_last() =~= values);
                }
            },
        }
    }

    /// The value that `name` is mapped to, if it is mapped.
    pub fn get(&self, name: &str) -> (r: Option<&String>)
        requires
            self.wf(),
        ensures
            match r {
                Some(v) => self@.dom().contains(name@) && self@[name@] == v@,
                None => !self@.dom().contains(name@),
            },
    {
        let wanted = String::from_str(name);
        proof {
            lemma_map_of_dom(strs(self.names@), strs(self.values@));
            lemma_map_of_distinct(strs(self.names@), strs(self.values@));
        }
        match self.index_of(&wanted) {
            Some(i) => {
                assert(strs(self.names@)[i as int] == name@);
                assert(strs(self.names@).contains(name@));
                assert(self@[strs(self.names@)[i as int]] == strs(self.values@)[i as int]);
                Some(&self.values[i])
            },
            None => None,
        }
    }

    /// The number of paths that are mapped.
    pub fn len(&self) -> (n: usize)
        requires
            self.wf(),
        ensures
            self@.dom().finite(),
            n == self@.dom().len(),
    {
        proof {
            lemma_map_of_dom(strs(self.names@), strs(self.values@));
            lemma_map_of_distinct(strs(self.names@), strs(self.values@));
        }
        self.names.len()
    }
}

/// The mapping `acc` with the attributes of the children `kids` of an
/// attribute set, from index `i` on, each under `prefix` followed by its own
/// dotted key.
pub open spec fn collected(
    kids: Seq<Tree>,
    i: int,
    prefix: Seq<char>,
    acc: Map<Seq<char>, Seq<char>>,
) -> Map<Seq<char>, Seq<char>>
    decreases kids, kids.len() - i,
{
    if i < 0 || i >= kids.len() {
        acc
    } else {
        collected(kids, i + 1, prefix, collected_entry(kids[i], prefix, acc))
    }
}

/// The mapping `acc` with the attributes of one child of an attribute set.
///
/// An entry with a key and a value adds the text of its value under its full
/// path; where the value is itself an attribute set, it adds the attributes of
/// that set instead, under its own path and a dot. Any other child adds
/// nothing.
pub open spec fn collected_entry(entry: Tree, prefix: Seq<char>, acc: Map<Seq<char>, Seq<char>>) -> Map<
    Seq<char>,
    Seq<char>,
>
    decreases entry,
{
    match entry {
        Tree::Token(_) => acc,
        Tree::Inner(kind, kids) => {
            let k = first_from(kids, 0, Want::Key);
            let j = first_from(kids, 0, Want::Value);
            if kind == Kind::KeyValue && 0 <= k < kids.len() && 0 <= j < kids.len() {
                let name = prefix + join_dots(segments(kids[k].kids()));
                if kids[j].is_kind(Kind::AttrSet) {
                    collected(kids[j].kids(), 0, name + "."@, acc)
                } else {
                    acc.insert(name, kids[j].text())
                }
            } else {
                acc
            }
        },
    }
}

/// Adds the attributes of the attribute set `set` to `map`, each under
/// `prefix` followed by its own dotted key.
pub fn collect_under(set: &Node, prefix: &str, map: &mut AttrMap)
    requires
        old(map).wf(),
    ensures
        final(map).wf(),
        final(map)@ == collected(set@.kids(), 0, prefix@, old(map)@),
    decreases set@,
{
    let n = set.arity();
    let mut i: usize = 0;
    while i < n
        invariant
            i <= n == set@.kids().len(),
            map.wf(),
            collected(set@.kids(), 0, prefix@, old(map)@) == collected(
                set@.kids(),
                i as int,
                prefix@,
                map@,
            ),
        decreases n - i,
    {
        let entry = set.child(i);
        let ghost before = map@;
        if entry.is_kind(Kind::KeyValue) {
            let k = first_child(entry, 0, Want::Key);
            let j = first_child(entry, 0, Want::Value);
            if k < entry.arity() && j < entry.arity() {
                let key = getkey(entry.child(k));
                let dotted = join_path(&key);
                let mut name = String::from_str(prefix);
                name.append(dotted.as_str());
                let value = entry.child(j);
                if value.is_kind(Kind::AttrSet) {
                    name.append(".");
                    collect_under(value, name.as_str(), map);
                } else {
                    map.insert(name, value.text());
                }
            }
        }
        assert(map@ == collected_entry(entry@, prefix@, before));
        i += 1;
    }
}

/// Adds the attributes of the attribute set `set` to `map`: for every entry
/// the text of its value under its dotted key, and for an entry whose value is
/// an attribute set the attributes of that set under the key and a dot. What a
/// list holds is not taken apart.
pub fn collectattrs(set: &Node, map: &mut AttrMap)
    requires
        old(map).wf(),
    ensures
        final(map).wf(),
        final(map)@ == collected(set@.kids(), 0, Seq::empty(), old(map)@),
{
    let prefix = String::new();
    collect_under(set, prefix.as_str(), map);
}

} // verus!
