use mini_rowan::{PureToken, PureTree, SyntaxChild, SyntaxForest, SyntaxTree};

fn kw(kw: &'static str) -> PureToken {
    PureToken::new(kw, kw)
}
fn op(kw: &'static str) -> PureToken {
    PureToken::new(kw, kw)
}
fn ident(ident: &str) -> PureToken {
    PureToken::new("ident", ident)
}

fn make_tree() -> PureTree {
    let func: PureTree = PureTree::new("function-decl")
        .push(kw("pub").into())
        .push(kw("fun").into())
        .push(PureTree::new("generic-param-list")
            .push(PureTree::new("param-decl")
                .push(ident("T").into())
                .push(PureTree::new("param-bound")
                    .push(op(":").into())
                    .push(ident("Clone").into())
                    .into())
                .into())
            .into())
        .push(PureTree::new("param-list").push(op("(").into()).push(op(")").into()).into())
        .push(PureTree::new("where-clause")
            .push(PureTree::new("where-pred")
                .push(ident("T").into())
                .push(PureTree::new("param-bound")
                    .push(op(":").into())
                    .push(ident("Eq").into())
                    .into())
                .into())
            .into())
        .into();
    func
}

/// Compares the subtrees under two syntax nodes structurally: same
/// kinds, same text lengths, same offsets within the parents, in the
/// same order.
fn same_shape(fa: &mut SyntaxForest, a: SyntaxTree, fb: &mut SyntaxForest, b: SyntaxTree) -> bool {
    if a.kind(fa) != b.kind(fb) || a.text_len(fa) != b.text_len(fb) {
        return false;
    }
    let mut i = 0;
    loop {
        let ca = a.get_child(fa, i);
        let cb = b.get_child(fb, i);
        match (ca, cb) {
            (None, None) => return true,
            (Some(ca), Some(cb)) => {
                if ca.kind(fa) != cb.kind(fb)
                    || ca.text_len(fa) != cb.text_len(fb)
                    || ca.offset(fa) - a.offset(fa) != cb.offset(fb) - b.offset(fb)
                {
                    return false;
                }
                match (ca, cb) {
                    (SyntaxChild::Tree(ta), SyntaxChild::Tree(tb)) => {
                        if !same_shape(fa, ta, fb, tb) {
                            return false;
                        }
                    }
                    (SyntaxChild::Token(_), SyntaxChild::Token(_)) => {}
                    _ => return false,
                }
            }
            _ => return false,
        }
        i += 1;
    }
}

#[test]
fn smoke_test() {
    let mut forest = SyntaxForest::new(make_tree());
    let func = forest.root();
    println!("{}", func.render_indented(&forest));

    let param_bound = {
        let gpl = func.find_tree(&mut forest, "generic-param-list").unwrap();
        let pd = gpl.find_tree(&mut forest, "param-decl").unwrap();
        pd.find_tree(&mut forest, "param-bound").unwrap()
    };
    println!("{}", param_bound.render_indented(&forest));

    let where_clause = func.find_tree(&mut forest, "where-clause").unwrap();
    println!("{}", where_clause.render_indented(&forest));

    let old_offset = where_clause.offset(&forest);
    param_bound.detach(&mut forest);
    assert!(where_clause.offset(&forest) == old_offset - param_bound.text_len(&forest));
    let where_pred = where_clause.find_tree(&mut forest, "where-pred").unwrap();
    where_pred.insert_child(&mut forest, 2, param_bound.into());
    println!("{}", func.render_indented(&forest));

    {
        let fun_kw = func.find_token(&mut forest, "fun").unwrap();
        let generic_param_list = fun_kw.next_sibling(&mut forest).unwrap();
        let param_list = generic_param_list.next_sibling(&mut forest).unwrap();

        assert!(func.find_tree(&mut forest, "generic-param-list").is_some());
        generic_param_list.detach(&mut forest);
        assert!(func.find_tree(&mut forest, "generic-param-list").is_none());

        assert_eq!(fun_kw.next_sibling(&mut forest).unwrap(), param_list);
        assert_eq!(
            param_list.prev_sibling(&mut forest).unwrap().kind(&forest),
            "fun"
        );
    }
}

#[test]
fn build_and_query_offsets() {
    let tree = make_tree();
    // pub(3) + fun(3) + (T : Clone)(7) + ( )(2) + (T : Eq)(4)
    assert_eq!(tree.text_len(), 19);
    assert_eq!(tree.kind(), "function-decl");

    let mut forest = SyntaxForest::new(tree);
    let func = forest.root();
    assert_eq!(func.text_len(&forest), 19);
    assert_eq!(func.offset(&forest), 0);

    let where_clause = func.find_tree(&mut forest, "where-clause").unwrap();
    assert_eq!(where_clause.offset(&forest), 15);
    assert_eq!(where_clause.text_len(&forest), 4);

    let gpl = func.find_tree(&mut forest, "generic-param-list").unwrap();
    assert_eq!(gpl.offset(&forest), 6);

    let fun_kw = func.find_token(&mut forest, "fun").unwrap();
    assert_eq!(fun_kw.offset(&forest), 3);
    assert_eq!(fun_kw.text(&forest), "fun");
    assert_eq!(fun_kw.text_len(&forest), 3);
}

#[test]
fn reattach_child() {
    let mut forest = SyntaxForest::new(make_tree());
    let func = forest.root();

    let param_bound = {
        let gpl = func.find_tree(&mut forest, "generic-param-list").unwrap();
        let pd = gpl.find_tree(&mut forest, "param-decl").unwrap();
        pd.find_tree(&mut forest, "param-bound").unwrap()
    };
    param_bound.detach(&mut forest);
    assert!(param_bound.parent(&forest).is_none());

    let where_pred = {
        let wc = func.find_tree(&mut forest, "where-clause").unwrap();
        wc.find_tree(&mut forest, "where-pred").unwrap()
    };
    where_pred.insert_child(&mut forest, 2, param_bound.into());

    let pd = {
        let gpl = func.find_tree(&mut forest, "generic-param-list").unwrap();
        gpl.find_tree(&mut forest, "param-decl").unwrap()
    };
    assert!(pd.get_child(&mut forest, 1).is_none());
    let c2 = where_pred.get_child(&mut forest, 2).unwrap();
    assert_eq!(c2.kind(&forest), "param-bound");
    assert_eq!(param_bound.parent(&forest), Some(where_pred));
}

#[test]
fn identity_caching() {
    let mut forest = SyntaxForest::new(make_tree());
    let func = forest.root();
    let first = func.first_child(&mut forest).unwrap();
    let again = func.first_child(&mut forest).unwrap();
    assert_eq!(first, again);
    let by_index = func.get_child(&mut forest, 0).unwrap();
    assert_eq!(first, by_index);
}

#[test]
fn structural_sharing() {
    let subtree: PureTree = PureTree::new("pair")
        .push(op("(").into())
        .push(op(")").into())
        .into();
    let sub_len = subtree.text_len();
    let parent: PureTree = PureTree::new("both")
        .push(subtree.clone().into())
        .push(subtree.into())
        .into();
    assert_eq!(parent.text_len(), 2 * sub_len);

    let mut fa = SyntaxForest::new(parent);
    let a = fa.root();
    let first = match a.get_child(&mut fa, 0).unwrap() {
        SyntaxChild::Tree(t) => t,
        SyntaxChild::Token(_) => panic!(),
    };
    let second = match a.get_child(&mut fa, 1).unwrap() {
        SyntaxChild::Tree(t) => t,
        SyntaxChild::Token(_) => panic!(),
    };
    let mut fb = SyntaxForest::new(
        PureTree::new("pair")
            .push(op("(").into())
            .push(op(")").into())
            .into_tree(),
    );
    let b = fb.root();
    assert!(same_shape(&mut fa, first, &mut fb, b));
    assert!(same_shape(&mut fa, second, &mut fb, b));
}

#[test]
fn insert_then_detach_restores_tree() {
    // Two forests from the same pure tree; in one of them a subtree is
    // detached, reinserted elsewhere, and detached again: both end
    // structurally equal after the first detach is mirrored.
    let mut fa = SyntaxForest::new(make_tree());
    let a = fa.root();
    let mut fb = SyntaxForest::new(make_tree());
    let b = fb.root();

    let pb_a = {
        let gpl = a.find_tree(&mut fa, "generic-param-list").unwrap();
        let pd = gpl.find_tree(&mut fa, "param-decl").unwrap();
        pd.find_tree(&mut fa, "param-bound").unwrap()
    };
    pb_a.detach(&mut fa);
    let pb_b = {
        let gpl = b.find_tree(&mut fb, "generic-param-list").unwrap();
        let pd = gpl.find_tree(&mut fb, "param-decl").unwrap();
        pd.find_tree(&mut fb, "param-bound").unwrap()
    };
    pb_b.detach(&mut fb);
    assert!(same_shape(&mut fa, a, &mut fb, b));

    // Round trip in forest `a` only.
    let where_pred = {
        let wc = a.find_tree(&mut fa, "where-clause").unwrap();
        wc.find_tree(&mut fa, "where-pred").unwrap()
    };
    where_pred.insert_child(&mut fa, 2, pb_a.into());
    assert!(!same_shape(&mut fa, a, &mut fb, b));
    pb_a.detach(&mut fa);
    assert!(same_shape(&mut fa, a, &mut fb, b));
    assert!(same_shape(&mut fa, pb_a, &mut fb, pb_b));
}

#[test]
fn sibling_order_after_edits() {
    let mut forest = SyntaxForest::new(make_tree());
    let func = forest.root();

    // Materialize all five children, then detach the middle one and
    // check that order and identity of the others survive.
    let children = func.children(&mut forest);
    assert_eq!(children.len(), 5);
    let kinds: Vec<&str> = children.iter().map(|c| c.kind(&forest)).collect();
    assert_eq!(
        kinds,
        vec![
            "pub",
            "fun",
            "generic-param-list",
            "param-list",
            "where-clause"
        ]
    );

    children[2].detach(&mut forest);
    let after = func.children(&mut forest);
    assert_eq!(after.len(), 4);
    assert_eq!(after[0], children[0]);
    assert_eq!(after[1], children[1]);
    assert_eq!(after[2], children[3]);
    assert_eq!(after[3], children[4]);
}
