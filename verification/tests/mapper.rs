use llguidance_ctrl::mapper::map_ast;

struct Node {
    name: &'static str,
    kids: Vec<Node>,
}

fn leaf(name: &'static str) -> Node {
    Node { name, kids: Vec::new() }
}

fn node(name: &'static str, kids: Vec<Node>) -> Node {
    Node { name, kids }
}

#[test]
fn a_leaf_is_mapped_without_arguments() {
    let t = leaf("x");
    let r = map_ast(&t, |n| &n.kids[..], |n, args: Vec<String>| {
        assert!(args.is_empty());
        n.name.to_string()
    });
    assert_eq!(r, "x");
}

#[test]
fn children_are_handed_over_last_child_first() {
    let t = node("f", vec![leaf("a"), node("g", vec![leaf("b"), leaf("c")]), leaf("d")]);
    let r = map_ast(&t, |n| &n.kids[..], |n, args: Vec<String>| {
        if args.is_empty() {
            n.name.to_string()
        } else {
            format!("{}({})", n.name, args.join(","))
        }
    });
    assert_eq!(r, "f(d,g(c,b),a)");
}

#[test]
fn every_node_is_mapped_once() {
    let t = node("r", vec![node("x", vec![leaf("y")]), leaf("z"), node("w", vec![leaf("u"), leaf("v")])]);
    let count = map_ast(&t, |n| &n.kids[..], |_n, args: Vec<usize>| 1 + args.iter().sum::<usize>());
    assert_eq!(count, 7);
    let depth = map_ast(&t, |n| &n.kids[..], |_n, args: Vec<usize>| {
        1 + args.iter().copied().max().unwrap_or(0)
    });
    assert_eq!(depth, 3);
}

#[test]
fn a_deep_chain_needs_no_call_stack() {
    let mut t = leaf("end");
    for _ in 0..200_000 {
        t = node("n", vec![t]);
    }
    let depth = map_ast(&t, |n| &n.kids[..], |_n, args: Vec<usize>| {
        1 + args.iter().copied().max().unwrap_or(0)
    });
    assert_eq!(depth, 200_001);
    // take the chain apart from the top, so that dropping it does not recurse
    let mut rest = Some(t);
    while let Some(mut n) = rest {
        rest = n.kids.pop();
    }
}
