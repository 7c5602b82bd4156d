//! Mapping over a tree from the leaves up, without recursion.

use vstd::prelude::*;

verus! {

/// A node that is being mapped: the node, the place on the stack of the
/// node that its result goes to, and the results of its children so far.
struct StackNode<'a, T, S> {
    ast: &'a T,
    trg: usize,
    args: Vec<S>,
}

/// The children of `t`, as `get_args` gives them.
pub open spec fn kids<T, F: Fn(&T) -> &[T]>(get_args: F, t: T) -> Seq<T> {
    (choose|cs: &[T]| call_ensures(get_args, (&t,), cs))@
}

/// `get_args` can be asked of every node, and gives one answer for each.
pub open spec fn is_function<T, F: Fn(&T) -> &[T]>(get_args: F) -> bool {
    &&& forall|t: &T| call_requires(get_args, (t,))
    &&& forall|t: &T, a: &[T], b: &[T]|
        call_ensures(get_args, (t,), a) && call_ensures(get_args, (t,), b) ==> a@ == b@
}

/// The sum of the sizes of the nodes of `s`.
pub open spec fn total<T>(size: spec_fn(T) -> nat, s: Seq<T>) -> nat
    decreases s.len(),
{
    if s.len() == 0 {
        0
    } else {
        total(size, s.drop_last()) + size(s.last())
    }
}

/// `size` measures the trees under `get_args`: a node has a size, and is
/// larger than all its children together.
pub open spec fn measures<T, F: Fn(&T) -> &[T]>(get_args: F, size: spec_fn(T) -> nat) -> bool {
    &&& forall|t: T| #[trigger] size(t) > 0
    &&& forall|t: &T, cs: &[T]| call_ensures(get_args, (t,), cs) ==> total(size, cs@) < size(*t)
}

/// `r` is a result of mapping the tree at `t` that is no deeper than
/// `depth`: a result of `map_node` for `t` and results of mapping the
/// children of `t`, last child first.
pub open spec fn mapped<T, S, F: Fn(&T) -> &[T], G: Fn(&T, Vec<S>) -> S>(
    get_args: F,
    map_node: G,
    t: T,
    r: S,
    depth: nat,
) -> bool
    decreases depth,
{
    &&& depth > 0
    &&& exists|args: Vec<S>|
        {
            &&& args@.len() == kids(get_args, t).len()
            &&& forall|i: int|
                0 <= i < args@.len() ==> mapped(
                    get_args,
                    map_node,
                    kids(get_args, t)[kids(get_args, t).len() - 1 - i],
                    #[trigger] args@[i],
                    (depth - 1) as nat,
                )
            &&& call_ensures(map_node, (&t, args), r)
        }
}

/// `r` is a result of mapping the tree at `t`.
pub open spec fn maps<T, S, F: Fn(&T) -> &[T], G: Fn(&T, Vec<S>) -> S>(
    get_args: F,
    map_node: G,
    t: T,
    r: S,
) -> bool {
    exists|depth: nat| #[trigger] mapped(get_args, map_node, t, r, depth)
}

/// A result that is no deeper than `depth` is no deeper than any greater
/// depth.
pub proof fn lemma_mapped_deeper<T, S, F: Fn(&T) -> &[T], G: Fn(&T, Vec<S>) -> S>(
    get_args: F,
    map_node: G,
    t: T,
    r: S,
    depth: nat,
    deeper: nat,
)
    requires
        mapped(get_args, map_node, t, r, depth),
        depth <= deeper,
    ensures
        mapped(get_args, map_node, t, r, deeper),
    decreases depth,
{
    let ks = kids(get_args, t);
    let args = choose|args: Vec<S>|
        {
            &&& args@.len() == ks.len()
            &&& forall|i: int|
                0 <= i < args@.len() ==> mapped(
                    get_args,
                    map_node,
                    ks[ks.len() - 1 - i],
                    #[trigger] args@[i],
                    (depth - 1) as nat,
                )
            &&& call_ensures(map_node, (&t, args), r)
        };
    assert forall|i: int| 0 <= i < args@.len() implies mapped(
        get_args,
        map_node,
        ks[ks.len() - 1 - i],
        #[trigger] args@[i],
        (deeper - 1) as nat,
    ) by {
        lemma_mapped_deeper(
            get_args,
            map_node,
            ks[ks.len() - 1 - i],
            args@[i],
            (depth - 1) as nat,
            (deeper - 1) as nat,
        );
    }
}

/// Results of the last `k` children of a node have a depth in common.
pub proof fn lemma_common_depth<T, S, F: Fn(&T) -> &[T], G: Fn(&T, Vec<S>) -> S>(
    get_args: F,
    map_node: G,
    ks: Seq<T>,
    args: Seq<S>,
    k: nat,
) -> (depth: nat)
    requires
        k <= args.len() <= ks.len(),
        forall|i: int|
            0 <= i < k ==> maps(get_args, map_node, ks[ks.len() - 1 - i], #[trigger] args[i]),
    ensures
        forall|i: int|
            0 <= i < k ==> mapped(get_args, map_node, ks[ks.len() - 1 - i], #[trigger] args[i], depth),
    decreases k,
{
    if k == 0 {
        0
    } else {
        let before = lemma_common_depth(get_args, map_node, ks, args, (k - 1) as nat);
        let last = k - 1;
        assert(maps(get_args, map_node, ks[ks.len() - 1 - last], args[last]));
        let kid = ks[ks.len() - 1 - last];
        let res = args[last];
        let own = choose|d: nat| #[trigger] mapped(get_args, map_node, kid, res, d);
        let depth = if before >= own {
            before
        } else {
            own
        };
        assert forall|i: int| 0 <= i < k implies mapped(
            get_args,
            map_node,
            ks[ks.len() - 1 - i],
            #[trigger] args[i],
            depth,
        ) by {
            if i < k - 1 {
                lemma_mapped_deeper(get_args, map_node, ks[ks.len() - 1 - i], args[i], before, depth);
            } else {
                lemma_mapped_deeper(get_args, map_node, ks[ks.len() - 1 - i], args[i], own, depth);
            }
        }
        depth
    }
}

/// What `map_node` makes of a node and of results of mapping its children,
/// last child first, is a result of mapping the node.
pub proof fn lemma_maps_node<T, S, F: Fn(&T) -> &[T], G: Fn(&T, Vec<S>) -> S>(
    get_args: F,
    map_node: G,
    t: T,
    args: Vec<S>,
    r: S,
)
    requires
        args@.len() == kids(get_args, t).len(),
        forall|i: int|
            0 <= i < args@.len() ==> maps(
                get_args,
                map_node,
                kids(get_args, t)[kids(get_args, t).len() - 1 - i],
                #[trigger] args@[i],
            ),
        call_ensures(map_node, (&t, args), r),
    ensures
        maps(get_args, map_node, t, r),
{
    let ks = kids(get_args, t);
    let depth = lemma_common_depth(get_args, map_node, ks, args@, args@.len());
    assert(mapped(get_args, map_node, t, r, depth + 1));
}

/// The sum of the numbers of `w`.
pub open spec fn sum(w: Seq<nat>) -> nat
    decreases w.len(),
{
    if w.len() == 0 {
        0
    } else {
        sum(w.drop_last()) + w.last()
    }
}

/// Whether the entry at `q` of the stack has had its children pushed and
/// waits for their results.
spec fn waits<T, S>(st: Seq<StackNode<T, S>>, q: int) -> bool {
    q + 1 < st.len() && st[q + 1].trg == q
}

/// Whether the results that the entry at `p` holds are results of mapping
/// its children, last child first.
spec fn holds_results<T, S, F: Fn(&T) -> &[T], G: Fn(&T, Vec<S>) -> S>(
    get_args: F,
    map_node: G,
    st: Seq<StackNode<T, S>>,
    p: int,
) -> bool {
    let ks = kids(get_args, *st[p].ast);
    &&& st[p].args@.len() <= ks.len()
    &&& forall|i: int|
        0 <= i < st[p].args@.len() ==> maps(
            get_args,
            map_node,
            ks[ks.len() - 1 - i],
            #[trigger] st[p].args@[i],
        )
}

/// The entry at `q` is a child of the entry that it goes to, and the
/// children of an entry lie above it in their order.
spec fn child_ok<T, S, F: Fn(&T) -> &[T]>(get_args: F, st: Seq<StackNode<T, S>>, q: int) -> bool {
    let p = st[q].trg as int;
    &&& p < q
    &&& q - p - 1 < kids(get_args, *st[p].ast).len()
    &&& *st[q].ast == kids(get_args, *st[p].ast)[q - p - 1]
}

/// The entry at `j`, which lies between the entry at `q` and the entry that
/// `q` goes to, is a sibling of `q` that has no results yet.
spec fn sibling_ok<T, S>(st: Seq<StackNode<T, S>>, q: int, j: int) -> bool {
    st[q].trg < j < q ==> st[j].trg == st[q].trg && st[j].args@.len() == 0
}

/// Where the entry at `q` is the topmost of the children of the entry that
/// it goes to, that entry holds the results of the children that are no
/// longer on the stack.
spec fn chain_ok<T, S, F: Fn(&T) -> &[T], G: Fn(&T, Vec<S>) -> S>(
    get_args: F,
    map_node: G,
    st: Seq<StackNode<T, S>>,
    q: int,
) -> bool {
    let p = st[q].trg as int;
    (q == st.len() - 1 || waits(st, q)) ==> {
        &&& st[p].args@.len() + (q - p) == kids(get_args, *st[p].ast).len()
        &&& holds_results(get_args, map_node, st, p)
    }
}

/// The entry at `q` weighs one at least, and twice its size where it has
/// not begun.
spec fn weight_ok<T, S>(st: Seq<StackNode<T, S>>, w: Seq<nat>, size: spec_fn(T) -> nat, q: int) -> bool {
    w[q] >= 1 && (st[q].args@.len() == 0 && !waits(st, q) ==> w[q] >= 2 * size(*st[q].ast))
}

/// What holds of the stack between two steps of the walk.
spec fn walking<T, S, F: Fn(&T) -> &[T], G: Fn(&T, Vec<S>) -> S>(
    get_args: F,
    map_node: G,
    root: T,
    st: Seq<StackNode<T, S>>,
    w: Seq<nat>,
    size: spec_fn(T) -> nat,
) -> bool {
    let n = st.len() as int;
    &&& n >= 1
    &&& w.len() == n
    &&& *st[0].ast == root
    &&& st[0].trg == 0
    &&& forall|q: int| 1 <= q < n ==> #[trigger] child_ok(get_args, st, q)
    &&& forall|q: int, j: int| 1 <= q < n && 0 <= j < n ==> #[trigger] sibling_ok(st, q, j)
    &&& forall|q: int| 1 <= q < n ==> #[trigger] chain_ok(get_args, map_node, st, q)
    // the top entry has not begun, or is done
    &&& (st[n - 1].args@.len() == 0 || (st[n - 1].args@.len() == kids(
        get_args,
        *st[n - 1].ast,
    ).len() && holds_results(get_args, map_node, st, n - 1)))
    &&& forall|q: int| 0 <= q < n ==> #[trigger] weight_ok(st, w, size, q)
}

/// The sizes of the first children of a node add up to no more than the
/// sizes of all of them.
proof fn lemma_total_take<T>(size: spec_fn(T) -> nat, s: Seq<T>, k: int)
    requires
        0 <= k <= s.len(),
    ensures
        total(size, s.take(k)) <= total(size, s),
        k < s.len() ==> total(size, s.take(k + 1)) == total(size, s.take(k)) + size(s[k]),
    decreases s.len() - k,
{
    if k < s.len() {
        assert(s.take(k + 1).drop_last() =~= s.take(k));
        assert(s.take(k + 1).last() == s[k]);
        lemma_total_take(size, s, k + 1);
    } else {
        assert(s.take(k) =~= s);
    }
}

/// The stack is as it should be after the children of the top entry were
/// pushed, and what is left to do has become less.
proof fn lemma_expanded<T, S, F: Fn(&T) -> &[T], G: Fn(&T, Vec<S>) -> S>(
    get_args: F,
    map_node: G,
    root: T,
    st0: Seq<StackNode<T, S>>,
    w0: Seq<nat>,
    st: Seq<StackNode<T, S>>,
    w: Seq<nat>,
    size: spec_fn(T) -> nat,
    args: Seq<T>,
)
    requires
        walking(get_args, map_node, root, st0, w0, size),
        measures(get_args, size),
        args == kids(get_args, *st0[st0.len() - 1].ast),
        args.len() > 0,
        st0[st0.len() - 1].args@.len() == 0,
        total(size, args) < size(*st0[st0.len() - 1].ast),
        st.len() == st0.len() + args.len(),
        st.take(st0.len() as int) == st0,
        w.len() == st.len(),
        w.take(st0.len() - 1) == w0.take(st0.len() - 1),
        w[st0.len() - 1] == 1,
        sum(w) == sum(w0.drop_last()) + 1 + 2 * total(size, args),
        forall|j: int|
            st0.len() <= j < st.len() ==> {
                &&& (#[trigger] st[j]).trg == st0.len() - 1
                &&& st[j].args@.len() == 0
                &&& *st[j].ast == args[j - st0.len()]
                &&& w[j] == 2 * size(args[j - st0.len()])
            },
    ensures
        walking(get_args, map_node, root, st, w, size),
        sum(w) < sum(w0),
{
    let m = st0.len() - 1;
    let n = st.len() as int;
    assert forall|q: int| 0 <= q <= m implies st[q] == st0[q] by {
        assert(st.take(m + 1)[q] == st[q]);
    }
    assert forall|q: int| 0 <= q < m implies w[q] == w0[q] by {
        assert(w.take(m as int)[q] == w[q]);
        assert(w0.take(m as int)[q] == w0[q]);
    }
    assert(weight_ok(st0, w0, size, m as int));
    assert(!waits(st0, m as int));
    assert(sum(w0) == sum(w0.drop_last()) + w0[m as int]);
    assert forall|q: int| 1 <= q < n implies #[trigger] child_ok(get_args, st, q) by {
        if q <= m {
            assert(child_ok(get_args, st0, q));
        } else {
            assert(st[q].trg == m);
        }
    }
    assert forall|q: int, j: int| 1 <= q < n && 0 <= j < n implies #[trigger] sibling_ok(st, q, j) by {
        if q <= m {
            if j <= m {
                assert(sibling_ok(st0, q, j));
                assert(child_ok(get_args, st0, q));
            } else {
                assert(child_ok(get_args, st0, q));
            }
        } else {
            assert(st[q].trg == m);
            if m < j < q {
                assert(st[j].trg == m);
            }
        }
    }
    assert forall|q: int| 1 <= q < n implies #[trigger] chain_ok(get_args, map_node, st, q) by {
        let p = st[q].trg as int;
        if q < m {
            assert(chain_ok(get_args, map_node, st0, q));
            assert(child_ok(get_args, st0, q));
            assert(waits(st, q) == waits(st0, q));
            if waits(st0, q) {
                assert(holds_results(get_args, map_node, st0, p));
                assert(st[p] == st0[p]);
            }
        } else if q == m {
            assert(chain_ok(get_args, map_node, st0, q));
            assert(child_ok(get_args, st0, q));
            assert(holds_results(get_args, map_node, st0, p));
            assert(st[p] == st0[p]);
        } else {
            assert(st[q].trg == m);
            if q < n - 1 {
                assert(st[q + 1].trg == m);
                assert(!waits(st, q));
            } else {
                assert(st[m].args@.len() == 0);
                assert(holds_results(get_args, map_node, st, m as int));
            }
        }
    }
    assert forall|q: int| 0 <= q < n implies #[trigger] weight_ok(st, w, size, q) by {
        if q < m {
            assert(weight_ok(st0, w0, size, q));
            assert(st[q] == st0[q]);
            assert(st[q + 1] == st0[q + 1]);
            assert(w[q] == w0[q]);
            assert(waits(st, q) == waits(st0, q));
        } else if q == m {
            assert(st[m + 1].trg == m);
            assert(waits(st, q));
        } else {
            assert(st[q].trg == m);
            assert(size(args[q - st0.len()]) > 0);
            assert(w[q] == 2 * size(args[q - st0.len()]));
            assert(*st[q].ast == args[q - st0.len()]);
        }
    }
    assert(st[n - 1].args@.len() == 0);
}

/// The stack is as it should be after the top entry was taken off and its
/// result was handed to the entry that it goes to, and what is left to do
/// has become less.
proof fn lemma_finished<T, S, F: Fn(&T) -> &[T], G: Fn(&T, Vec<S>) -> S>(
    get_args: F,
    map_node: G,
    root: T,
    st0: Seq<StackNode<T, S>>,
    w0: Seq<nat>,
    st: Seq<StackNode<T, S>>,
    size: spec_fn(T) -> nat,
    r: S,
)
    requires
        walking(get_args, map_node, root, st0, w0, size),
        st0.len() >= 2,
        st.len() == st0.len() - 1,
        forall|q: int| 0 <= q < st.len() && q != st0[st0.len() - 1].trg ==> #[trigger] st[q] == st0[q],
        st[st0[st0.len() - 1].trg as int].ast == st0[st0[st0.len() - 1].trg as int].ast,
        st[st0[st0.len() - 1].trg as int].trg == st0[st0[st0.len() - 1].trg as int].trg,
        st[st0[st0.len() - 1].trg as int].args@ == st0[st0[st0.len() - 1].trg as int].args@.push(r),
        maps(get_args, map_node, *st0[st0.len() - 1].ast, r),
    ensures
        walking(get_args, map_node, root, st, w0.drop_last(), size),
        sum(w0.drop_last()) < sum(w0),
{
    let m = st0.len() - 1;
    let p = st0[m].trg as int;
    let w = w0.drop_last();
    let n = st.len() as int;
    assert(child_ok(get_args, st0, m as int));
    assert(chain_ok(get_args, map_node, st0, m as int));
    assert(weight_ok(st0, w0, size, m as int));
    assert(sum(w0) == sum(w0.drop_last()) + w0[m as int]);
    assert(holds_results(get_args, map_node, st0, p));
    assert(holds_results(get_args, map_node, st, p)) by {
        let ks = kids(get_args, *st[p].ast);
        assert forall|i: int| 0 <= i < st[p].args@.len() implies maps(
            get_args,
            map_node,
            ks[ks.len() - 1 - i],
            #[trigger] st[p].args@[i],
        ) by {
            if i < st0[p].args@.len() {
                assert(st[p].args@[i] == st0[p].args@[i]);
            }
        }
    }
    assert forall|q: int| 1 <= q < n implies #[trigger] child_ok(get_args, st, q) by {
        assert(child_ok(get_args, st0, q));
    }
    assert forall|q: int, j: int| 1 <= q < n && 0 <= j < n implies #[trigger] sibling_ok(st, q, j) by {
        assert(sibling_ok(st0, q, j));
        assert(child_ok(get_args, st0, q));
        if st[q].trg < j < q && j == p {
            // then q lies between the parent and the entry that was
            // taken off, and goes to the parent itself
            assert(sibling_ok(st0, m as int, q));
        }
    }
    assert forall|q: int| 1 <= q < n implies #[trigger] chain_ok(get_args, map_node, st, q) by {
        let pp = st[q].trg as int;
        assert(child_ok(get_args, st0, q));
        assert(chain_ok(get_args, map_node, st0, q));
        if q == n - 1 {
            if q > p {
                assert(sibling_ok(st0, m as int, q));
            } else {
                assert(q == p);
                assert(waits(st0, q));
                assert(holds_results(get_args, map_node, st0, pp));
                assert(st[pp] == st0[pp]);
            }
        } else if waits(st, q) {
            assert(waits(st0, q));
            if pp == p {
                assert(sibling_ok(st0, m as int, q + 1));
                assert(false);
            }
            assert(holds_results(get_args, map_node, st0, pp));
            assert(st[pp] == st0[pp]);
        }
    }
    assert(st[n - 1].args@.len() == 0 || (st[n - 1].args@.len() == kids(get_args, *st[n - 1].ast).len()
        && holds_results(get_args, map_node, st, n - 1))) by {
        if n - 1 > p {
            assert(sibling_ok(st0, m as int, n - 1));
        }
    }
    assert forall|q: int| 0 <= q < n implies #[trigger] weight_ok(st, w, size, q) by {
        assert(weight_ok(st0, w0, size, q));
        assert(w[q] == w0[q]);
        if q < n - 1 {
            assert(waits(st, q) == waits(st0, q));
        } else if q != p {
            assert(sibling_ok(st0, m as int, q));
            assert(!waits(st0, q));
        }
    }
}

/// Maps the tree at `ast` from its leaves up: `get_args` gives the children
/// of a node, and `map_node` makes the result for a node from the results
/// for its children. The children's results are handed to `map_node` last
/// child first. The tree is walked with a stack of its own, not by
/// recursion.
pub fn map_ast<'a, T, S>(
    ast: &'a T,
    get_args: impl Fn(&T) -> &[T],
    map_node: impl Fn(&T, Vec<S>) -> S,
) -> (r: S)
    requires
        is_function(get_args),
        forall|t: &T, v: Vec<S>| call_requires(map_node, (t, v)),
        exists|size: spec_fn(T) -> nat| measures(get_args, size),
    ensures
        maps(get_args, map_node, *ast, r),
{
    let ghost size = choose|size: spec_fn(T) -> nat| measures(get_args, size);
    let mut stack: Vec<StackNode<'a, T, S>> = Vec::new();
    stack.push(StackNode { ast, trg: 0, args: Vec::new() });
    let ghost mut w: Seq<nat> = seq![2 * size(*ast)];
    proof {
        assert(w.drop_last() =~= Seq::<nat>::empty());
        assert(sum(w.drop_last()) == 0);
        assert(sum(w) == 2 * size(*ast));
        assert(stack@.len() == 1);
        assert(size(*ast) > 0);
        assert(weight_ok(stack@, w, size, 0));
        assert(walking(get_args, map_node, *ast, stack@, w, size));
    }
    loop
        invariant
            is_function(get_args),
            forall|t: &T, v: Vec<S>| call_requires(map_node, (t, v)),
            measures(get_args, size),
            walking(get_args, map_node, *ast, stack@, w, size),
        decreases sum(w),
    {
        let ghost st0 = stack@;
        let ghost w0 = w;
        let ghost m = st0.len() - 1;
        let entry = match stack.pop() {
            Some(entry) => entry,
            None => {
                proof {
                    assert(false);
                }
                vstd::pervasive::unreached()
            },
        };
        let args = get_args(entry.ast);
        proof {
            assert(args@ == kids(get_args, *entry.ast)) by {
                let chosen = choose|cs: &[T]| call_ensures(get_args, (entry.ast,), cs);
                assert(call_ensures(get_args, (entry.ast,), chosen));
            }
            assert(total(size, args@) < size(*entry.ast));
        }
        if args.len() > 0 && entry.args.len() == 0 {
            let trg = stack.len();
            stack.push(entry);
            proof {
                w = w0.drop_last().push(1);
                assert(stack@ =~= st0);
                assert(w.drop_last() =~= w0.drop_last());
                assert(args@.take(0) =~= Seq::<T>::empty());
                assert(w.take(m as int) =~= w0.take(m as int));
            }
            let mut k: usize = 0;
            while k < args.len()
                invariant
                    k <= args@.len(),
                    trg == m,
                    m == st0.len() - 1,
                    stack@.len() == m + 1 + k,
                    stack@.take(m + 1) == st0,
                    w.len() == m + 1 + k,
                    w.take(m as int) == w0.take(m as int),
                    w[m as int] == 1,
                    sum(w) == sum(w0.drop_last()) + 1 + 2 * total(size, args@.take(k as int)),
                    forall|j: int|
                        m < j < m + 1 + k ==> {
                            &&& (#[trigger] stack@[j]).trg == m
                            &&& stack@[j].args@.len() == 0
                            &&& *stack@[j].ast == args@[j - m - 1]
                            &&& w[j] == 2 * size(args@[j - m - 1])
                        },
                decreases args@.len() - k,
            {
                proof {
                    lemma_total_take(size, args@, k as int);
                }
                let ghost before = stack@;
                let ghost w_before = w;
                stack.push(StackNode { ast: &args[k], trg, args: Vec::new() });
                proof {
                    w = w.push(2 * size(args@[k as int]));
                    assert(w.drop_last() =~= w_before);
                    assert(stack@.take(m + 1) =~= before.take(m + 1));
                    assert(w.take(m as int) =~= w_before.take(m as int));
                }
                k += 1;
            }
            proof {
                assert(args@.take(args@.len() as int) =~= args@);
                lemma_expanded(get_args, map_node, *ast, st0, w0, stack@, w, size, args@);
            }
        } else {
            proof {
                assert(entry == st0[m as int]);
                if entry.args@.len() != 0 {
                    assert(holds_results(get_args, map_node, st0, m as int));
                }
                assert(entry.args@.len() == args@.len());
            }
            let ghost node_args = entry.args;
            let r = map_node(entry.ast, entry.args);
            proof {
                lemma_maps_node(get_args, map_node, *entry.ast, node_args, r);
            }
            if stack.len() == 0 {
                return r;
            }
            proof {
                assert(child_ok(get_args, st0, m as int));
            }
            stack[entry.trg].args.push(r);
            proof {
                w = w0.drop_last();
                lemma_finished(get_args, map_node, *ast, st0, w0, stack@, size, r);
            }
        }
    }
}

} // verus!
