use mini_rowan::{Delta, PureChild, PureChildKind, PureToken, PureTree, SyntaxForest};

fn leaf(kind: &'static str, text: &str) -> PureChildKind {
    PureToken::new(kind, text).into()
}

fn flat(kinds_and_texts: &[(&'static str, &str)]) -> PureTree {
    let mut b = PureTree::new("list");
    for (k, t) in kinds_and_texts {
        b = b.push(leaf(k, t));
    }
    b.into_tree()
}

fn child_info(c: &PureChild) -> (usize, &'static str, usize) {
    (c.offset, c.kind.kind(), c.kind.text_len())
}

#[test]
fn delta_arithmetic() {
    let grow = Delta::new(3, 5);
    assert_eq!(grow.apply(10), 12);
    let shrink = Delta::new(5, 2);
    assert_eq!(shrink.apply(10), 7);
    let zero = Delta::new(4, 4);
    assert_eq!(zero.apply(10), 10);
    assert_eq!(Delta::Add(7).apply(0), 7);
    assert_eq!(Delta::Sub(7).apply(7), 0);
}

#[test]
fn builder_offsets() {
    let t = flat(&[("a", "xx"), ("b", "yyy"), ("c", "z")]);
    assert_eq!(t.text_len(), 6);
    assert_eq!(t.children_len(), 3);
    assert_eq!(child_info(t.get_child(0).unwrap()), (0, "a", 2));
    assert_eq!(child_info(t.get_child(1).unwrap()), (2, "b", 3));
    assert_eq!(child_info(t.get_child(2).unwrap()), (5, "c", 1));
    assert!(t.get_child(3).is_none());
}

#[test]
fn pure_remove_child() {
    let t = flat(&[("a", "xx"), ("b", "yyy"), ("c", "z")]);
    let r = t.remove_child(1);
    assert_eq!(r.text_len(), 3);
    assert_eq!(r.children_len(), 2);
    assert_eq!(child_info(r.get_child(0).unwrap()), (0, "a", 2));
    assert_eq!(child_info(r.get_child(1).unwrap()), (2, "c", 1));
    // The original is untouched.
    assert_eq!(t.children_len(), 3);
    assert_eq!(t.text_len(), 6);
}

#[test]
fn pure_insert_child() {
    let t = flat(&[("a", "xx"), ("c", "z")]);
    let r = t.insert_child(1, leaf("b", "yyy"));
    assert_eq!(r.text_len(), 6);
    assert_eq!(child_info(r.get_child(0).unwrap()), (0, "a", 2));
    assert_eq!(child_info(r.get_child(1).unwrap()), (2, "b", 3));
    assert_eq!(child_info(r.get_child(2).unwrap()), (5, "c", 1));

    // Insertion at the end of a branch that has children: the new
    // child's offset is the old total text length.
    let r2 = t.insert_child(2, leaf("d", "!!"));
    assert_eq!(child_info(r2.get_child(2).unwrap()), (3, "d", 2));
    assert_eq!(r2.text_len(), 5);

    // Insertion at the end of an empty branch.
    let empty = PureTree::new("list").into_tree();
    let one = empty.insert_child(0, leaf("x", "q"));
    assert_eq!(one.children_len(), 1);
    assert_eq!(child_info(one.get_child(0).unwrap()), (0, "x", 1));
    assert_eq!(one.text_len(), 1);
}

#[test]
fn pure_replace_child() {
    let t = flat(&[("a", "xx"), ("b", "yyy"), ("c", "z")]);
    let r = t.replace_child(1, leaf("bb", "w"));
    assert_eq!(r.text_len(), 4);
    assert_eq!(child_info(r.get_child(0).unwrap()), (0, "a", 2));
    assert_eq!(child_info(r.get_child(1).unwrap()), (2, "bb", 1));
    assert_eq!(child_info(r.get_child(2).unwrap()), (3, "c", 1));
}

#[test]
fn token_accessors() {
    let tok = PureToken::new("ident", "hello");
    assert_eq!(tok.kind(), "ident");
    assert_eq!(tok.text(), "hello");
    assert_eq!(tok.text_len(), 5);
    assert_eq!(tok.render(), "\"hello\": ident");
}

#[test]
fn render_modes() {
    let t: PureTree = PureTree::new("a")
        .push(leaf("x", "ab"))
        .push(
            PureTree::new("b")
                .push(leaf("y", "c"))
                .into(),
        )
        .into();
    assert_eq!(t.render(), "a");
    assert_eq!(t.render_indented(), "a\n  \"ab\": x\n  b\n    \"c\": y\n");
}

#[test]
fn pure_children_listing() {
    let t = flat(&[("a", "xx"), ("b", "yyy")]);
    let children = t.children();
    assert_eq!(children.len(), 2);
    assert_eq!(child_info(&children[0]), (0, "a", 2));
    assert_eq!(child_info(&children[1]), (2, "b", 3));
}

#[test]
fn syntax_render() {
    let mut forest = SyntaxForest::new(flat(&[("a", "xx")]));
    let root = forest.root();
    assert_eq!(root.render(&forest), "list");
    assert_eq!(root.render_indented(&forest), "list\n  \"xx\": a\n");
    let tok = root.find_token(&mut forest, "a").unwrap();
    assert_eq!(tok.render(&forest), "\"xx\": a");
}

#[test]
fn navigation_misses() {
    let mut forest = SyntaxForest::new(flat(&[("a", "xx"), ("b", "y")]));
    let root = forest.root();
    assert!(root.get_child(&mut forest, 2).is_none());
    assert!(root.parent(&forest).is_none());
    assert!(root.next_sibling(&mut forest).is_none());
    assert!(root.prev_sibling(&mut forest).is_none());
    assert!(root.find_token(&mut forest, "missing").is_none());

    let first = root.first_child(&mut forest).unwrap();
    assert!(first.prev_sibling(&mut forest).is_none());
    let second = first.next_sibling(&mut forest).unwrap();
    assert!(second.next_sibling(&mut forest).is_none());
    assert_eq!(second.prev_sibling(&mut forest).unwrap(), first);
}

#[test]
fn detach_root_is_no_op() {
    let mut forest = SyntaxForest::new(flat(&[("a", "xx")]));
    let root = forest.root();
    root.detach(&mut forest);
    assert_eq!(root.text_len(&forest), 2);
    assert!(root.parent(&forest).is_none());
    assert_eq!(root.kind(&forest), "list");
}

#[test]
fn detach_updates_offsets() {
    let mut forest = SyntaxForest::new(flat(&[("a", "xx"), ("b", "yyy"), ("c", "z")]));
    let root = forest.root();
    let children = root.children(&mut forest);
    assert_eq!(children[2].offset(&forest), 5);
    children[1].detach(&mut forest);
    assert_eq!(root.text_len(&forest), 3);
    assert_eq!(children[2].offset(&forest), 2);
    assert_eq!(children[0].offset(&forest), 0);
    // The detached leaf keeps its text length and loses its parent.
    assert_eq!(children[1].text_len(&forest), 3);
    assert!(children[1].parent(&forest).is_none());
}

#[test]
fn insert_shifts_siblings() {
    let mut forest = SyntaxForest::new(flat(&[("a", "xx"), ("c", "z")]));
    let root = forest.root();
    let children = root.children(&mut forest);

    let c = children[1];
    c.detach(&mut forest);
    root.insert_child(&mut forest, 0, c);
    assert_eq!(c.offset(&forest), 0);
    assert_eq!(children[0].offset(&forest), 1);
    let now = root.children(&mut forest);
    assert_eq!(now.len(), 2);
    assert_eq!(now[0], c);
    assert_eq!(now[1], children[0]);
    assert_eq!(root.text_len(&forest), 3);
}
