use nix_editor::parse::{getcfgbase, getkey, split_path, AttrMap};
use nix_editor::read::{getarrvals, getwithvalue, readvalue, ReadError};
use nix_editor::syntax::{build_tree, kind_from_name, parse_tree, Event};
use nix_editor::tree::{Kind, Node};
use nix_editor::write::{addtoarr, deref, rmarr, rmarr_aux, WriteError};

fn edit(f: &str, query: &str, val: &str) -> Result<String, WriteError> {
    nix_editor::write::write(f, query, val)
}

fn strings(items: &[&str]) -> Vec<String> {
    items.iter().map(|s| s.to_string()).collect()
}

fn token(text: &str) -> Node {
    Node::Token { text: text.to_string() }
}

fn inner(kind: Kind, children: Vec<Node>) -> Node {
    Node::Inner { kind, children }
}

const SMALL: &str = "{\n  a.b = 1;\n  c = {\n    d = \"x\";\n  };\n  e = with p; [ f g ];\n}\n";

#[test]
fn parsing_keeps_every_character() {
    for text in [SMALL, "", "   ", "{ a = ; ", "]] not nix {{", "{ x = ''\n  multi\n''; } # tail"] {
        assert_eq!(parse_tree(text).unwrap().text(), text);
    }
}

#[test]
fn parsing_again_gives_the_same_text() {
    let once = parse_tree(SMALL).unwrap().text();
    let twice = parse_tree(&once).unwrap().text();
    assert_eq!(once, twice);
    assert_eq!(twice, SMALL);
}

#[test]
fn parsed_tree_has_the_kinds_of_the_source() {
    let root = parse_tree("{ a.\"b\" = [ 1 ]; }").unwrap();
    assert!(root.is_kind(Kind::Root));
    let set = root.child(0);
    assert!(set.is_kind(Kind::AttrSet));
    // `{`, space, entry, space, `}`
    assert_eq!(set.arity(), 5);
    let entry = set.child(2);
    assert!(entry.is_kind(Kind::KeyValue));
    let key = entry.child(0);
    assert!(key.is_kind(Kind::Key));
    assert!(key.child(0).is_kind(Kind::Ident));
    assert!(key.child(2).is_kind(Kind::Str));
    assert_eq!(getkey(key), strings(&["a", "\"b\""]));
    assert!(entry.child(4).is_kind(Kind::List));
    assert!(!set.child(0).is_node());
    assert_eq!(set.child(0).text(), "{");
}

#[test]
fn scopes_are_told_apart() {
    let with = parse_tree("with a; b").unwrap();
    assert!(with.child(0).is_kind(Kind::With));
    let let_in = parse_tree("let a = 1; in a").unwrap();
    assert!(let_in.child(0).is_kind(Kind::LetIn));
    let lambda = parse_tree("x: x").unwrap();
    assert!(lambda.child(0).is_kind(Kind::Lambda));
    let other = parse_tree("1 + 2").unwrap();
    assert!(other.child(0).is_kind(Kind::Other));
}

#[test]
fn kind_names() {
    assert_eq!(kind_from_name("NODE_ROOT"), Kind::Root);
    assert_eq!(kind_from_name("NODE_KEY"), Kind::Key);
    assert_eq!(kind_from_name("NODE_KEY_VALUE"), Kind::KeyValue);
    assert_eq!(kind_from_name("NODE_ATTR_SET"), Kind::AttrSet);
    assert_eq!(kind_from_name("NODE_LIST"), Kind::List);
    assert_eq!(kind_from_name("NODE_WITH"), Kind::With);
    assert_eq!(kind_from_name("NODE_IDENT"), Kind::Ident);
    assert_eq!(kind_from_name("NODE_STRING"), Kind::Str);
    assert_eq!(kind_from_name("NODE_LET_IN"), Kind::LetIn);
    assert_eq!(kind_from_name("NODE_LAMBDA"), Kind::Lambda);
    assert_eq!(kind_from_name("NODE_APPLY"), Kind::Other);
    assert_eq!(kind_from_name(""), Kind::Other);
}

#[test]
fn events_that_are_no_walk_build_no_tree() {
    assert!(build_tree(&vec![]).is_none());
    assert!(build_tree(&vec![Event::Leave]).is_none());
    assert!(build_tree(&vec![Event::Enter("NODE_ROOT".to_string())]).is_none());
    assert!(build_tree(&vec![Event::Token("a".to_string())]).is_none());
    let two = vec![
        Event::Token("a".to_string()),
        Event::TokenEnd,
        Event::Token("b".to_string()),
        Event::TokenEnd,
    ];
    assert!(build_tree(&two).is_none());
    let one = vec![
        Event::Enter("NODE_LIST".to_string()),
        Event::Token("[".to_string()),
        Event::TokenEnd,
        Event::Enter("NODE_IDENT".to_string()),
        Event::Token("a".to_string()),
        Event::TokenEnd,
        Event::Leave,
        Event::Token("]".to_string()),
        Event::TokenEnd,
        Event::Leave,
    ];
    let tree = build_tree(&one).unwrap();
    assert!(tree.is_kind(Kind::List));
    assert_eq!(tree.arity(), 3);
    assert_eq!(tree.text(), "[a]");
}

#[test]
fn paths_split_at_dots() {
    assert_eq!(split_path("a.b.c"), strings(&["a", "b", "c"]));
    assert_eq!(split_path("a"), strings(&["a"]));
    assert_eq!(split_path(""), strings(&[""]));
    assert_eq!(split_path("a."), strings(&["a", ""]));
    assert_eq!(split_path(".a"), strings(&["", "a"]));
    assert_eq!(split_path("systemd-boot.enable"), strings(&["systemd-boot", "enable"]));
}

#[test]
fn root_is_found_through_scopes() {
    for text in ["{ a = 1; }", "{ pkgs, ... }: { a = 1; }", "let x = 1; in { a = 1; }", "with x; { a = 1; }", "x: let y = 1; in with z; { a = 1; }"] {
        assert_eq!(readvalue(text, "a").unwrap(), "1", "{}", text);
    }
    for text in ["", "1", "[ { a = 1; } ]", "let x = { a = 1; }; in x", "f { a = 1; }"] {
        assert_eq!(readvalue(text, "a"), Err(ReadError::ParseError), "{}", text);
        assert!(getcfgbase(&parse_tree(text).unwrap()).is_none());
    }
}

#[test]
fn paths_resolve_across_nesting() {
    assert_eq!(readvalue(SMALL, "a.b").unwrap(), "1");
    assert_eq!(readvalue(SMALL, "c.d").unwrap(), "\"x\"");
    assert_eq!(readvalue(SMALL, "c").unwrap(), "{\n    d = \"x\";\n  }");
    assert_eq!(readvalue(SMALL, "e").unwrap(), "with p; [ f g ]");
    assert_eq!(readvalue(SMALL, "a"), Err(ReadError::NoAttr));
    assert_eq!(readvalue(SMALL, "c.d.e"), Err(ReadError::NoAttr));
    let mixed = "{ a = { b.c = { d = 1; }; }; a.b.c.e = 2; }";
    assert_eq!(readvalue(mixed, "a.b.c.d").unwrap(), "1");
    assert_eq!(readvalue(mixed, "a.b.c.e").unwrap(), "2");
    let through_with = "{ a = with x; { b = 3; }; }";
    assert_eq!(readvalue(through_with, "a.b").unwrap(), "3");
}

#[test]
fn first_match_in_document_order_wins() {
    let text = "{ a.b = 1; a = { b = 2; }; }";
    assert_eq!(readvalue(text, "a.b").unwrap(), "1");
    let text = "{ a = { b = 2; }; a.b = 1; }";
    assert_eq!(readvalue(text, "a.b").unwrap(), "2");
}

#[test]
fn arrays_are_read_through_with() {
    assert_eq!(getarrvals(SMALL, "e").unwrap(), strings(&["f", "g"]));
    assert_eq!(getarrvals("{ a = with x; with y; [ 1 \"two\" ./three ]; }", "a").unwrap(), strings(&["1", "\"two\"", "./three"]));
    assert_eq!(getarrvals("{ a = [ ]; }", "a").unwrap(), Vec::<String>::new());
    assert_eq!(getarrvals(SMALL, "a.b"), Err(ReadError::ArrayError));
    assert_eq!(getarrvals(SMALL, "nothing"), Err(ReadError::NoAttr));
    assert_eq!(getarrvals("1", "a"), Err(ReadError::ParseError));
}

#[test]
fn with_names_come_outermost_first() {
    assert_eq!(getwithvalue(SMALL, "e").unwrap(), strings(&["p"]));
    assert_eq!(getwithvalue(SMALL, "a.b").unwrap(), Vec::<String>::new());
    assert_eq!(getwithvalue("{ a = with x; with y.z; [ ]; }", "a").unwrap(), strings(&["x", "y.z"]));
    assert_eq!(getwithvalue(SMALL, "nothing"), Err(ReadError::NoAttr));
    assert_eq!(getwithvalue("[ ]", "a"), Err(ReadError::ParseError));
}

#[test]
fn write_replaces_the_value_and_nothing_else() {
    let out = edit(SMALL, "c.d", "\"y\"").unwrap();
    assert_eq!(out, "{\n  a.b = 1;\n  c = {\n    d = \"y\";\n  };\n  e = with p; [ f g ];\n}\n");
    assert_eq!(readvalue(&out, "c.d").unwrap(), "\"y\"");
    let out = edit(SMALL, "a.b", "{ z = 2; }").unwrap();
    assert_eq!(out, "{\n  a.b = { z = 2; };\n  c = {\n    d = \"x\";\n  };\n  e = with p; [ f g ];\n}\n");
    assert_eq!(readvalue(&out, "a.b.z").unwrap(), "2");
}

#[test]
fn write_creates_what_is_missing() {
    let out = edit("{\n  a = 1;\n}\n", "x.y.z", "true").unwrap();
    assert_eq!(out, "{\n  a = 1;\n  x.y.z = true;\n}\n");
    assert_eq!(readvalue(&out, "x.y.z").unwrap(), "true");
    assert_eq!(readvalue(&out, "a").unwrap(), "1");
}

#[test]
fn write_goes_into_the_deepest_open_set() {
    let out = edit(SMALL, "c.e", "2").unwrap();
    assert_eq!(out, "{\n  a.b = 1;\n  c = {\n    d = \"x\";\n    e = 2;\n  };\n  e = with p; [ f g ];\n}\n");
    let nested = "{\n  a = {\n    b.c = {\n      x = 1;\n    };\n  };\n}\n";
    let out = edit(nested, "a.b.c.d.e", "2").unwrap();
    assert_eq!(out, "{\n  a = {\n    b.c = {\n      x = 1;\n      d.e = 2;\n    };\n  };\n}\n");
    assert_eq!(readvalue(&out, "a.b.c.d.e").unwrap(), "2");
}

#[test]
fn write_puts_the_entry_after_its_nearest_relative() {
    let text = "{\n  a.b = 1;\n  c.d = 2;\n  e = 3;\n}\n";
    assert_eq!(edit(text, "a.x", "9").unwrap(), "{\n  a.b = 1;\n  a.x = 9;\n  c.d = 2;\n  e = 3;\n}\n");
    assert_eq!(edit(text, "c.d.e", "9"), Ok("{\n  a.b = 1;\n  c.d = 2;\n  c.d.e = 9;\n  e = 3;\n}\n".to_string()));
    assert_eq!(edit(text, "z", "9").unwrap(), "{\n  a.b = 1;\n  c.d = 2;\n  e = 3;\n  z = 9;\n}\n");
}

#[test]
fn write_into_a_set_without_space() {
    assert_eq!(edit("{}", "a", "1").unwrap(), "\n  a = 1;{}");
    assert_eq!(edit("{ }", "a", "1").unwrap(), "{\n  a = 1; }");
}

#[test]
fn write_errors() {
    assert_eq!(edit("1", "a", "1"), Err(WriteError::ParseError));
    assert_eq!(edit("", "a", "1"), Err(WriteError::ParseError));
    assert_eq!(edit("{ a =", "a", "1"), Err(WriteError::ParseError));
}

#[test]
fn append_puts_items_before_the_closing_bracket() {
    let text = "{\n  a = [\n    x\n  ];\n}\n";
    let out = addtoarr(text, "a", strings(&["y", "z"])).unwrap();
    assert_eq!(out, "{\n  a = [\n    x\n    y\n    z\n  ];\n}\n");
    let out = addtoarr("{ a = [ x ]; }", "a", strings(&["y", "z"])).unwrap();
    assert_eq!(out, "{ a = [ x \n    y\n    z]; }");
    assert_eq!(getarrvals(&out, "a").unwrap(), strings(&["x", "y", "z"]));
    let out = addtoarr("{ a = with p; [\n  ]; }", "a", strings(&["y"])).unwrap();
    assert_eq!(out, "{ a = with p; [\n    y\n  ]; }");
    assert_eq!(addtoarr(text, "a", vec![]).unwrap(), text);
}

#[test]
fn append_creates_the_list() {
    let out = addtoarr("{\n  a = 1;\n}\n", "b.c", strings(&["x", "y"])).unwrap();
    assert_eq!(out, "{\n  a = 1;\n  b.c = [ \n    x\n    y];\n}\n");
    assert_eq!(getarrvals(&out, "b.c").unwrap(), strings(&["x", "y"]));
}

#[test]
fn append_errors() {
    assert_eq!(addtoarr(SMALL, "a.b", strings(&["x"])), Err(WriteError::ArrayError));
    assert_eq!(addtoarr("1", "a", strings(&["x"])), Err(WriteError::ParseError));
    assert_eq!(addtoarr("{ a = ; }", "a", strings(&["x"])), Err(WriteError::ArrayError));
}

#[test]
fn append_then_remove() {
    let text = "{\n  a = [\n    p\n    q\n  ];\n}\n";
    let more = addtoarr(text, "a", strings(&["x", "y"])).unwrap();
    assert_eq!(getarrvals(&more, "a").unwrap(), strings(&["p", "q", "x", "y"]));
    let less = rmarr(&more, "a", strings(&["y"])).unwrap();
    assert_eq!(getarrvals(&less, "a").unwrap(), strings(&["p", "q", "x"]));
    assert_eq!(less, "{\n  a = [\n    p\n    q\n    x\n  ];\n}\n");
}

#[test]
fn remove_takes_the_line_break_along() {
    let text = "{\n  a = [\n    x\n    y\n    z\n  ];\n}\n";
    assert_eq!(rmarr(text, "a", strings(&["y"])).unwrap(), "{\n  a = [\n    x\n    z\n  ];\n}\n");
    assert_eq!(rmarr(text, "a", strings(&["z", "x"])).unwrap(), "{\n  a = [\n    y\n  ];\n}\n");
    assert_eq!(rmarr(text, "a", strings(&["nothing"])).unwrap(), text);
    assert_eq!(rmarr("{ a = [ x y x ]; }", "a", strings(&["x"])).unwrap(), "{ a = [  y  ]; }");
    assert_eq!(rmarr("{ a = with p; [ x ]; }", "a", strings(&["x"])).unwrap(), "{ a = with p; [  ]; }");
}

#[test]
fn remove_errors() {
    assert_eq!(rmarr(SMALL, "nothing", strings(&["x"])), Err(WriteError::NoAttr));
    assert_eq!(rmarr(SMALL, "a.b", strings(&["x"])), Err(WriteError::ArrayError));
    assert_eq!(rmarr("[ ]", "a", strings(&["x"])), Err(WriteError::ParseError));
}

#[test]
fn remove_on_a_tree_built_by_hand() {
    let list = inner(
        Kind::List,
        vec![
            token("["),
            token("\n  "),
            inner(Kind::Ident, vec![token("a")]),
            token(" "),
            inner(Kind::Ident, vec![token("b")]),
            token("\n"),
            inner(Kind::Ident, vec![token("a")]),
            token("]"),
        ],
    );
    let out = rmarr_aux(&list, &strings(&["a"]));
    assert_eq!(out.text(), "[ b]");
    assert_eq!(out.arity(), 4);
    assert!(out.is_kind(Kind::List));
    let out = rmarr_aux(&list, &strings(&["b"]));
    assert_eq!(out.text(), "[\n  a \na]");
}

#[test]
fn deref_removes_one_entry() {
    let out = deref(SMALL, "a.b").unwrap();
    assert_eq!(out, "{\n  c = {\n    d = \"x\";\n  };\n  e = with p; [ f g ];\n}\n");
    assert_eq!(readvalue(&out, "a.b"), Err(ReadError::NoAttr));
    assert_eq!(readvalue(&out, "c.d").unwrap(), "\"x\"");
    assert_eq!(getarrvals(&out, "e").unwrap(), strings(&["f", "g"]));
    let out = deref(SMALL, "c.d").unwrap();
    assert_eq!(out, "{\n  a.b = 1;\n  c = {\n    };\n  e = with p; [ f g ];\n}\n");
    let out = deref(SMALL, "c").unwrap();
    assert_eq!(out, "{\n  a.b = 1;\n  e = with p; [ f g ];\n}\n");
    assert_eq!(deref("{ a = 1; b = 2; }", "a").unwrap(), "{  b = 2; }");
    assert_eq!(deref("{ a = 1;", "a").unwrap(), "{ ");
}

#[test]
fn deref_removes_the_first_of_two() {
    let text = "{\n  a.b = 1;\n  a = {\n    b = 2;\n  };\n}\n";
    let out = deref(text, "a.b").unwrap();
    assert_eq!(readvalue(&out, "a.b").unwrap(), "2");
}

#[test]
fn deref_errors() {
    assert_eq!(deref(SMALL, "nothing"), Err(WriteError::NoAttr));
    assert_eq!(deref(SMALL, "a"), Err(WriteError::NoAttr));
    assert_eq!(deref("x", "a"), Err(WriteError::ParseError));
}

#[test]
fn attributes_are_collected_flat() {
    let root = parse_tree("{ a.b = 1; c = { d = \"x\"; e.f = [ 1 2 ]; }; g = with p; { h = 1; }; a.b = 2; }").unwrap();
    let base = getcfgbase(&root).unwrap();
    let mut map = AttrMap::new();
    nix_editor::parse::collectattrs(root.get(&base, 0), &mut map);
    assert_eq!(map.len(), 4);
    assert_eq!(map.get("a.b").unwrap(), "2");
    assert_eq!(map.get("c.d").unwrap(), "\"x\"");
    assert_eq!(map.get("c.e.f").unwrap(), "[ 1 2 ]");
    assert_eq!(map.get("g").unwrap(), "with p; { h = 1; }");
    assert!(map.get("c").is_none());
    assert!(map.get("g.h").is_none());
}

#[test]
fn attribute_map_replaces_on_insert() {
    let mut map = AttrMap::new();
    assert_eq!(map.len(), 0);
    assert!(map.get("a").is_none());
    map.insert("a".to_string(), "1".to_string());
    map.insert("b".to_string(), "2".to_string());
    map.insert("a".to_string(), "3".to_string());
    assert_eq!(map.len(), 2);
    assert_eq!(map.get("a").unwrap(), "3");
    assert_eq!(map.get("b").unwrap(), "2");
}

#[test]
fn errors_say_what_they_are() {
    assert_eq!(WriteError::ParseError.message(), "Write Error: Error while parsing.");
    assert_eq!(WriteError::NoAttr.message(), "Write Error: No attributes.");
    assert_eq!(WriteError::ArrayError.message(), "Write Error: Error with array.");
    assert_eq!(ReadError::ParseError.message(), "Read Error: Error while parsing.");
    assert_eq!(ReadError::NoAttr.message(), "Read Error: No attributes.");
    assert_eq!(ReadError::ArrayError.message(), "Read Error: Error with array.");
}

#[test]
fn the_written_tree_reads_as_written() {
    let root = parse_tree(SMALL).unwrap();
    let path = split_path("c.d");
    let out = nix_editor::write::write_in(&root, &path, "[ 1 2 ]").unwrap();
    assert_eq!(nix_editor::read::read_from(&out, &path).unwrap(), "[ 1 2 ]");
    assert_eq!(nix_editor::read::read_from(&out, &split_path("a.b")).unwrap(), "1");
    assert_eq!(out.text(), "{\n  a.b = 1;\n  c = {\n    d = [ 1 2 ];\n  };\n  e = with p; [ f g ];\n}\n");
}

#[test]
fn the_edited_list_reads_without_parsing_again() {
    let root = parse_tree(SMALL).unwrap();
    let path = split_path("e");
    let more = nix_editor::write::append_in(&root, &path, &strings(&["h", "i"])).unwrap();
    assert_eq!(
        nix_editor::read::array_from(&more, &path).unwrap(),
        strings(&["f", "g", "\n    h", "\n    i"])
    );
    let less = nix_editor::write::remove_in(&more, &path, &strings(&["g", "\n    i"])).unwrap();
    assert_eq!(nix_editor::read::array_from(&less, &path).unwrap(), strings(&["f", "\n    h"]));
    assert_eq!(nix_editor::read::with_from(&less, &path).unwrap(), strings(&["p"]));
}

#[test]
fn the_tree_without_an_entry_reads_it_no_more() {
    let root = parse_tree(SMALL).unwrap();
    let path = split_path("c.d");
    let out = nix_editor::write::delete_in(&root, &path).unwrap();
    assert_eq!(nix_editor::read::read_from(&out, &path), Err(ReadError::NoAttr));
    assert_eq!(nix_editor::read::read_from(&out, &split_path("a.b")).unwrap(), "1");
    assert_eq!(nix_editor::read::array_from(&out, &split_path("e")).unwrap(), strings(&["f", "g"]));
}

#[test]
fn a_new_entry_is_indented_by_its_depth() {
    assert_eq!(nix_editor::write::make_entry_text(0, "a.b", "1"), "\n  a.b = 1;");
    assert_eq!(nix_editor::write::make_entry_text(4, "c", "\"x\""), "\n      c = \"x\";");
    assert_eq!(nix_editor::write::join_path(&strings(&["a", "b", "c"])), "a.b.c");
    assert_eq!(nix_editor::write::join_path(&strings(&["a"])), "a");
    assert_eq!(nix_editor::write::join_path(&vec![]), "");
}

#[test]
fn the_nearest_relative_decides_the_place() {
    let root = parse_tree("{\n  a.b = 1;\n  c.d = 2;\n  e = 3;\n}\n").unwrap();
    let set = root.child(0);
    // `{`, space, entry, space, entry, space, entry, space, `}`
    assert_eq!(set.arity(), 9);
    assert_eq!(nix_editor::write::matchval(set, &strings(&["c", "x"]), 2), 4);
    assert_eq!(nix_editor::write::matchval(set, &strings(&["c", "d"]), 2), 4);
    assert_eq!(nix_editor::write::matchval(set, &strings(&["z"]), 1), 9);
    assert_eq!(nix_editor::write::insert_index(set, &strings(&["c", "x"])), 5);
    assert_eq!(nix_editor::write::insert_index(set, &strings(&["a", "x"])), 3);
    assert_eq!(nix_editor::write::insert_index(set, &strings(&["z"])), 7);
}

#[test]
fn the_deepest_open_set_is_found() {
    let root = parse_tree("{ a = { b.c = { x = 1; }; }; d = 1; }").unwrap();
    let found = nix_editor::write::findattrset(&root, &strings(&["a", "b", "c", "y"]), 0);
    let (path, matched, levels) = found.unwrap();
    assert_eq!(matched, 3);
    assert_eq!(levels, 2);
    assert!(root.get(&path, 0).is_kind(Kind::AttrSet));
    assert_eq!(root.get(&path, 0).text(), "{ x = 1; }");
    let found = nix_editor::write::findattrset(&root, &strings(&["a", "z"]), 0);
    let (path, matched, levels) = found.unwrap();
    assert_eq!((matched, levels), (1, 1));
    assert_eq!(root.get(&path, 0).text(), "{ b.c = { x = 1; }; }");
    assert!(nix_editor::write::findattrset(&root, &strings(&["d", "z"]), 0).is_none());
    assert!(nix_editor::write::findattrset(&root, &strings(&["a"]), 0).is_none());
}

#[test]
fn an_entry_is_found_by_its_path() {
    let root = parse_tree(SMALL).unwrap();
    let entry = nix_editor::parse::findattr(&root, "c.d").unwrap();
    assert_eq!(root.get(&entry, 0).text(), "d = \"x\";");
    assert!(root.get(&entry, 0).is_kind(Kind::KeyValue));
    let entry = nix_editor::parse::findattr(&root, "a.b").unwrap();
    assert_eq!(entry, vec![0, 2]);
    assert!(nix_editor::parse::findattr(&root, "a.c").is_none());
    assert!(nix_editor::parse::findattr(&root, "").is_none());
}
