//! What an Earley row is: the steps of prediction, completion and null
//! advance, and the rows that are closed under them.

use vstd::prelude::*;
use vstd::relations::injective_on;
use vstd::set_lib::lemma_int_range;
use vstd::set_lib::lemma_len_subset;
use vstd::set_lib::lemma_map_size;
use vstd::set_lib::set_int_range;
use crate::earley::grammar::CGrammar;
use crate::earley::grammar::CSymIdx;
use crate::earley::grammar::RuleIdx;
use crate::earley::item::Item;
use crate::earley::item::Row;

verus! {

/// The items of the first `k` rows, each row a range of the item array.
pub open spec fn rows_view(rows: Seq<Row>, items: Seq<Item>, k: nat) -> Seq<Seq<Item>> {
    Seq::new(k, |i: int| items.subrange(rows[i].first_item as int, rows[i].last_item as int))
}

/// The first `k` rows are ranges that end at or before slot `limit`.
pub open spec fn rows_fit(rows: Seq<Row>, k: nat, limit: nat) -> bool {
    &&& k <= rows.len()
    &&& forall|i: int|
        0 <= i < k ==> (#[trigger] rows[i]).first_item <= rows[i].last_item <= limit
}

/// Rows that fit below `limit` do not change while the item array agrees
/// below `limit`.
pub proof fn lemma_rows_view_stable(rows: Seq<Row>, a: Seq<Item>, b: Seq<Item>, k: nat, limit: nat)
    requires
        rows_fit(rows, k, limit),
        limit <= a.len(),
        limit <= b.len(),
        a.take(limit as int) == b.take(limit as int),
    ensures
        rows_view(rows, a, k) == rows_view(rows, b, k),
{
    assert forall|i: int| 0 <= i < k implies rows_view(rows, a, k)[i] == rows_view(rows, b, k)[i] by {
        let f = rows[i].first_item as int;
        let l = rows[i].last_item as int;
        assert(0 <= f <= l <= limit);
        assert forall|j: int| 0 <= j < l - f implies a.subrange(f, l)[j] == b.subrange(f, l)[j] by {
            assert(a.take(limit as int)[f + j] == a[f + j]);
            assert(b.take(limit as int)[f + j] == b[f + j]);
        }
        assert(a.subrange(f, l) =~= b.subrange(f, l));
    }
    assert(rows_view(rows, a, k) =~= rows_view(rows, b, k));
}

/// An item of row `k` names a position of the grammar and an origin no later
/// than `k`.
pub open spec fn item_valid(g: CGrammar, k: nat, it: Item) -> bool {
    g.valid_rule(it.rule_spec()) && it.start_spec() <= k
}

/// Every item of every earlier row is valid for its row.
pub open spec fn prev_valid(g: CGrammar, prev: Seq<Seq<Item>>) -> bool {
    forall|i: int, j: int|
        0 <= i < prev.len() && 0 <= j < prev[i].len() ==> item_valid(
            g,
            i as nat,
            #[trigger] prev[i][j],
        )
}

/// Whether `waiting`, an item of an earlier row, has the symbol `lhs` after
/// its dot.
pub open spec fn waits_for(g: CGrammar, waiting: Item, lhs: CSymIdx) -> bool {
    g.sym_dot_spec(waiting.rule_spec()) == lhs
}

/// Completion: `item` is a completed rule that began in an earlier row, and
/// `next` is an item of that row, waiting for the rule's left-hand side, with
/// its dot moved on.
pub open spec fn completes(g: CGrammar, prev: Seq<Seq<Item>>, item: Item, next: Item) -> bool {
    &&& g.is_complete(item.rule_spec())
    &&& item.start_spec() < prev.len()
    &&& exists|j: int|
        0 <= j < prev[item.start_spec() as int].len() && waits_for(
            g,
            #[trigger] prev[item.start_spec() as int][j],
            g.lhs_spec(item.rule_spec()),
        ) && next == prev[item.start_spec() as int][j].advance_spec()
}

/// Null advance: the symbol after the dot of `item` can derive the empty
/// string, and `next` is `item` with its dot moved over it.
pub open spec fn skips_nullable(g: CGrammar, item: Item, next: Item) -> bool {
    &&& !g.is_complete(item.rule_spec())
    &&& g.symbol_dot(item.rule_spec()).is_nullable
    &&& next == item.advance_spec()
}

/// Prediction: `next` is the start of a rule of the symbol after the dot of
/// `item`, with origin `k`.
pub open spec fn predicts(g: CGrammar, k: nat, item: Item, next: Item) -> bool {
    &&& !g.is_complete(item.rule_spec())
    &&& exists|i: int|
        0 <= i < g.symbol_dot(item.rule_spec()).rules@.len() && next == Item::spec_new(
            #[trigger] g.symbol_dot(item.rule_spec()).rules@[i],
            k,
        )
}

/// One step of the recognizer in the row that follows the rows `prev`:
/// with `item` in the row, `next` belongs to it too.
pub open spec fn step(g: CGrammar, prev: Seq<Seq<Item>>, item: Item, next: Item) -> bool {
    ||| completes(g, prev, item, next)
    ||| skips_nullable(g, item, next)
    ||| predicts(g, prev.len(), item, next)
}

/// A set of items that holds every step from each of its items.
pub open spec fn closed_set(g: CGrammar, prev: Seq<Seq<Item>>, x: Set<Item>) -> bool {
    forall|a: Item, b: Item| x.contains(a) && #[trigger] step(g, prev, a, b) ==> x.contains(b)
}

pub open spec fn holds_all(x: Set<Item>, seeds: Seq<Item>) -> bool {
    forall|i: int| 0 <= i < seeds.len() ==> x.contains(#[trigger] seeds[i])
}

/// `it` is in every closed set that holds the seeds: it is a seed, or is
/// reached from the seeds by steps.
pub open spec fn derivable(g: CGrammar, prev: Seq<Seq<Item>>, seeds: Seq<Item>, it: Item) -> bool {
    forall|x: Set<Item>| #[trigger] holds_all(x, seeds) && closed_set(g, prev, x) ==> x.contains(it)
}

/// Every item of `row` from position `from` on has all its steps in `row`.
pub open spec fn closed_from(g: CGrammar, prev: Seq<Seq<Item>>, row: Seq<Item>, from: int) -> bool {
    forall|i: int, b: Item|
        from <= i < row.len() && #[trigger] step(g, prev, row[i], b) ==> row.contains(b)
}

/// What holds of a row while it is built from `seeds`: no item twice, every
/// item valid, every item derivable from the seeds.
pub open spec fn row_inv(g: CGrammar, prev: Seq<Seq<Item>>, seeds: Seq<Item>, row: Seq<Item>) -> bool {
    &&& row.no_duplicates()
    &&& forall|i: int| 0 <= i < row.len() ==> item_valid(g, prev.len(), #[trigger] row[i])
    &&& forall|i: int| 0 <= i < row.len() ==> derivable(g, prev, seeds, #[trigger] row[i])
}

/// `row` with `it` added at its end unless it holds `it` already.
pub open spec fn with_item(row: Seq<Item>, it: Item) -> Seq<Item> {
    if row.contains(it) {
        row
    } else {
        row.push(it)
    }
}

/// `row` with the items of `items` added one after the other, each unless
/// the row holds it by then.
pub open spec fn with_items(row: Seq<Item>, items: Seq<Item>) -> Seq<Item>
    decreases items.len(),
{
    if items.len() == 0 {
        row
    } else {
        with_item(with_items(row, items.drop_last()), items.last())
    }
}

/// What completion gives from the first `j` items of the origin row
/// `origin`: those that wait for `lhs`, with their dots moved on, in the
/// order of the row.
pub open spec fn completed(g: CGrammar, origin: Seq<Item>, lhs: CSymIdx, j: int) -> Seq<Item>
    decreases j,
{
    if j <= 0 {
        seq![]
    } else {
        let rest = completed(g, origin, lhs, j - 1);
        if waits_for(g, origin[j - 1], lhs) {
            rest.push(origin[j - 1].advance_spec())
        } else {
            rest
        }
    }
}

/// The starts of the first `j` rules of `rules`, with origin `k`, in the
/// order of the rules.
pub open spec fn predicted(rules: Seq<RuleIdx>, k: nat, j: int) -> Seq<Item>
    decreases j,
{
    if j <= 0 {
        seq![]
    } else {
        predicted(rules, k, j - 1).push(Item::spec_new(rules[j - 1], k))
    }
}

/// The item itself with its dot moved on, where the symbol after the dot
/// can derive the empty string.
pub open spec fn null_advance(g: CGrammar, item: Item) -> Seq<Item> {
    if g.symbol_dot(item.rule_spec()).is_nullable {
        seq![item.advance_spec()]
    } else {
        seq![]
    }
}

/// The items that `item` gives rise to in the row behind the rows `prev`,
/// in the order in which they are added: for a completed rule the items of
/// its origin row that wait for it, in that row's order; else the null
/// advance, then the rules of the symbol after the dot, in the grammar's
/// order.
pub open spec fn steps_of(g: CGrammar, prev: Seq<Seq<Item>>, item: Item) -> Seq<Item> {
    if g.is_complete(item.rule_spec()) {
        if item.start_spec() < prev.len() {
            let origin = prev[item.start_spec() as int];
            completed(g, origin, g.lhs_spec(item.rule_spec()), origin.len() as int)
        } else {
            seq![]
        }
    } else {
        let rules = g.symbol_dot(item.rule_spec()).rules@;
        null_advance(g, item) + predicted(rules, prev.len(), rules.len() as int)
    }
}

/// The row that grows from `seeds` when the items at the positions from
/// `from` on are handled in turn, after `k` of them: each adds what it gives
/// rise to, in order, at the end of the row.
pub open spec fn closed_run(g: CGrammar, prev: Seq<Seq<Item>>, seeds: Seq<Item>, from: int, k: nat) -> Seq<
    Item,
>
    decreases k,
{
    if k == 0 {
        seeds
    } else {
        let row = closed_run(g, prev, seeds, from, (k - 1) as nat);
        let at = from + k - 1;
        if 0 <= at < row.len() {
            with_items(row, steps_of(g, prev, row[at]))
        } else {
            row
        }
    }
}

/// The row as it is when every item from position `from` on was handled:
/// the items of a row, in their order.
pub open spec fn is_closed_run(g: CGrammar, prev: Seq<Seq<Item>>, seeds: Seq<Item>, from: int, row: Seq<Item>) -> bool {
    from <= row.len() && row == closed_run(g, prev, seeds, from, (row.len() - from) as nat)
}

/// Once every item is handled, handling more changes nothing.
pub proof fn lemma_closed_run_stays(
    g: CGrammar,
    prev: Seq<Seq<Item>>,
    seeds: Seq<Item>,
    from: int,
    k1: nat,
    k2: nat,
)
    requires
        0 <= from,
        closed_run(g, prev, seeds, from, k1).len() == from + k1,
        k1 <= k2,
    ensures
        closed_run(g, prev, seeds, from, k2) == closed_run(g, prev, seeds, from, k1),
    decreases k2 - k1,
{
    if k2 > k1 {
        lemma_closed_run_stays(g, prev, seeds, from, k1, (k2 - 1) as nat);
    }
}

/// The seeds and the position from which items are handled fix the row,
/// item for item.
pub proof fn lemma_closed_run_one(
    g: CGrammar,
    prev: Seq<Seq<Item>>,
    seeds: Seq<Item>,
    from: int,
    a: Seq<Item>,
    b: Seq<Item>,
)
    requires
        0 <= from,
        is_closed_run(g, prev, seeds, from, a),
        is_closed_run(g, prev, seeds, from, b),
    ensures
        a == b,
{
    let ka = (a.len() - from) as nat;
    let kb = (b.len() - from) as nat;
    if ka <= kb {
        lemma_closed_run_stays(g, prev, seeds, from, ka, kb);
    } else {
        lemma_closed_run_stays(g, prev, seeds, from, kb, ka);
    }
}

pub proof fn lemma_seeds_derivable(g: CGrammar, prev: Seq<Seq<Item>>, seeds: Seq<Item>)
    ensures
        forall|i: int| 0 <= i < seeds.len() ==> derivable(g, prev, seeds, #[trigger] seeds[i]),
{
    assert forall|i: int| 0 <= i < seeds.len() implies derivable(
        g,
        prev,
        seeds,
        #[trigger] seeds[i],
    ) by {
        assert forall|x: Set<Item>| #[trigger]
            holds_all(x, seeds) && closed_set(g, prev, x) implies x.contains(seeds[i]) by {}
    }
}

/// What a step reaches from a derivable item is derivable.
pub proof fn lemma_step_derivable(
    g: CGrammar,
    prev: Seq<Seq<Item>>,
    seeds: Seq<Item>,
    from: Item,
    next: Item,
)
    requires
        derivable(g, prev, seeds, from),
        step(g, prev, from, next),
    ensures
        derivable(g, prev, seeds, next),
{
    assert forall|x: Set<Item>| #[trigger]
        holds_all(x, seeds) && closed_set(g, prev, x) implies x.contains(next) by {
        assert(x.contains(from));
    }
}

/// What a step reaches from a valid item is valid.
pub proof fn lemma_step_valid(g: CGrammar, prev: Seq<Seq<Item>>, from: Item, next: Item)
    requires
        g.wf(),
        prev_valid(g, prev),
        prev.len() < 0x1_0000_0000,
        item_valid(g, prev.len(), from),
        step(g, prev, from, next),
    ensures
        item_valid(g, prev.len(), next),
{
    let k = prev.len();
    assert(g.rule_wf(from.rule_spec()));
    if completes(g, prev, from, next) {
        let s = from.start_spec() as int;
        let j = choose|j: int|
            0 <= j < prev[s].len() && waits_for(g, #[trigger] prev[s][j], g.lhs_spec(from.rule_spec()))
                && next == prev[s][j].advance_spec();
        let w = prev[s][j];
        assert(item_valid(g, s as nat, w));
        assert(g.rule_wf(w.rule_spec()));
        Item::lemma_advance(w);
    } else if skips_nullable(g, from, next) {
        Item::lemma_advance(from);
    } else {
        let sym = g.symbol_dot(from.rule_spec());
        let i = choose|i: int|
            0 <= i < sym.rules@.len() && next == Item::spec_new(#[trigger] sym.rules@[i], k);
        assert(g.symbol_wf(g.sym_dot_spec(from.rule_spec())));
        Item::lemma_parts(sym.rules@[i], k);
    }
}

/// Adding what a step reaches from an item of the row keeps the row's
/// invariant.
pub proof fn lemma_row_inv_add(
    g: CGrammar,
    prev: Seq<Seq<Item>>,
    seeds: Seq<Item>,
    row: Seq<Item>,
    from: Item,
    next: Item,
)
    requires
        g.wf(),
        prev_valid(g, prev),
        prev.len() < 0x1_0000_0000,
        row_inv(g, prev, seeds, row),
        row.contains(from),
        step(g, prev, from, next),
    ensures
        row_inv(g, prev, seeds, with_item(row, next)),
{
    let p = choose|p: int| 0 <= p < row.len() && row[p] == from;
    lemma_step_valid(g, prev, from, next);
    lemma_step_derivable(g, prev, seeds, from, next);
    if !row.contains(next) {
        let r2 = row.push(next);
        assert forall|i: int, j: int| 0 <= i < r2.len() && 0 <= j < r2.len() && i != j implies r2[i]
            != r2[j] by {
            if i < row.len() && j < row.len() {
            } else if i < row.len() {
                assert(row.contains(row[i]));
            } else {
                assert(row.contains(row[j]));
            }
        }
    }
}

/// A row without duplicates whose items have origins up to `k` has at most
/// `(k + 1) * 2^32` items.
pub proof fn lemma_row_bound(g: CGrammar, k: nat, row: Seq<Item>)
    requires
        row.no_duplicates(),
        forall|i: int| 0 <= i < row.len() ==> item_valid(g, k, #[trigger] row[i]),
    ensures
        row.len() <= (k + 1) * 0x1_0000_0000,
{
    broadcast use vstd::seq_lib::seq_to_set_is_finite;

    let s = row.to_set();
    row.unique_seq_to_set();
    let f = |it: Item| it.data as int;
    let t = s.map(f);
    assert(injective_on(f, s)) by {
        assert forall|a: Item, b: Item| s.contains(a) && s.contains(b) && #[trigger] f(a) == #[trigger] f(b) implies a == b by {}
    }
    lemma_map_size(s, t, f);
    let bound = (k + 1) * 0x1_0000_0000;
    let range = set_int_range(0, bound as int);
    lemma_int_range(0, bound as int);
    assert forall|v: int| t.contains(v) implies range.contains(v) by {
        let it = choose|it: Item| s.contains(it) && f(it) == v;
        let p = choose|p: int| 0 <= p < row.len() && row[p] == it;
        assert(item_valid(g, k, row[p]));
    }
    lemma_len_subset(t, range);
}

/// A row that is built from its seeds, holds them, and is closed from its
/// first item on holds exactly the items that are derivable from the seeds:
/// it is the least closed set over the seeds.
pub proof fn lemma_closed_row_is_least(
    g: CGrammar,
    prev: Seq<Seq<Item>>,
    seeds: Seq<Item>,
    row: Seq<Item>,
)
    requires
        seeds.is_prefix_of(row),
        closed_from(g, prev, row, 0),
        forall|i: int| 0 <= i < row.len() ==> derivable(g, prev, seeds, #[trigger] row[i]),
    ensures
        holds_all(row.to_set(), seeds),
        closed_set(g, prev, row.to_set()),
        forall|it: Item| row.contains(it) <==> derivable(g, prev, seeds, it),
{
    let x = row.to_set();
    assert forall|i: int| 0 <= i < seeds.len() implies x.contains(#[trigger] seeds[i]) by {
        assert(row[i] == seeds[i]);
    }
    assert forall|a: Item, b: Item| x.contains(a) && #[trigger] step(g, prev, a, b) implies x.contains(
        b,
    ) by {
        let p = choose|p: int| 0 <= p < row.len() && row[p] == a;
        assert(step(g, prev, row[p], b));
    }
    assert forall|it: Item| derivable(g, prev, seeds, it) implies row.contains(it) by {
        assert(holds_all(x, seeds));
        assert(x.contains(it));
    }
}

/// The two rows hold the same items, in whatever order.
pub open spec fn same_items(a: Seq<Item>, b: Seq<Item>) -> bool {
    forall|it: Item| #[trigger] a.contains(it) == b.contains(it)
}

/// The two lists of rows are equally long, and rows at the same place hold
/// the same items.
pub open spec fn same_rows(a: Seq<Seq<Item>>, b: Seq<Seq<Item>>) -> bool {
    &&& a.len() == b.len()
    &&& forall|i: int| 0 <= i < a.len() ==> same_items(#[trigger] a[i], b[i])
}

/// Completion does not depend on the order of the items in earlier rows.
pub proof fn lemma_completes_same(g: CGrammar, pa: Seq<Seq<Item>>, pb: Seq<Seq<Item>>, a: Item, b: Item)
    requires
        same_rows(pa, pb),
        completes(g, pa, a, b),
    ensures
        completes(g, pb, a, b),
{
    let s = a.start_spec() as int;
    let j = choose|j: int|
        0 <= j < pa[s].len() && waits_for(g, #[trigger] pa[s][j], g.lhs_spec(a.rule_spec())) && b
            == pa[s][j].advance_spec();
    let w = pa[s][j];
    assert(same_items(pa[s], pb[s]));
    assert(pa[s].contains(w));
    assert(pb[s].contains(w));
    let j2 = choose|j2: int| 0 <= j2 < pb[s].len() && pb[s][j2] == w;
    assert(waits_for(g, pb[s][j2], g.lhs_spec(a.rule_spec())));
}

/// A step does not depend on the order of the items in earlier rows.
pub proof fn lemma_step_same(g: CGrammar, pa: Seq<Seq<Item>>, pb: Seq<Seq<Item>>, a: Item, b: Item)
    requires
        same_rows(pa, pb),
    ensures
        step(g, pa, a, b) == step(g, pb, a, b),
{
    assert(same_rows(pb, pa)) by {
        assert forall|i: int| 0 <= i < pb.len() implies same_items(#[trigger] pb[i], pa[i]) by {
            assert(same_items(pa[i], pb[i]));
        }
    }
    if completes(g, pa, a, b) {
        lemma_completes_same(g, pa, pb, a, b);
    }
    if completes(g, pb, a, b) {
        lemma_completes_same(g, pb, pa, a, b);
    }
}

/// What is derivable does not depend on the order of the items in earlier
/// rows, nor on the order of the seeds.
pub proof fn lemma_derivable_same(
    g: CGrammar,
    pa: Seq<Seq<Item>>,
    pb: Seq<Seq<Item>>,
    s1: Seq<Item>,
    s2: Seq<Item>,
    it: Item,
)
    requires
        same_rows(pa, pb),
        same_items(s1, s2),
        derivable(g, pa, s1, it),
    ensures
        derivable(g, pb, s2, it),
{
    assert forall|x: Set<Item>| #[trigger] holds_all(x, s2) && closed_set(g, pb, x) implies x.contains(
        it,
    ) by {
        assert forall|i: int| 0 <= i < s1.len() implies x.contains(#[trigger] s1[i]) by {
            assert(s1.contains(s1[i]));
            assert(s2.contains(s1[i]));
            let k = choose|k: int| 0 <= k < s2.len() && s2[k] == s1[i];
            assert(x.contains(s2[k]));
        }
        assert(holds_all(x, s1));
        assert forall|a: Item, b: Item| x.contains(a) && #[trigger] step(g, pa, a, b) implies x.contains(
            b,
        ) by {
            lemma_step_same(g, pa, pb, a, b);
            assert(step(g, pb, a, b));
        }
        assert(closed_set(g, pa, x));
    }
}

/// Two rows that were closed over the same seeds after the same rows hold
/// the same items.
pub proof fn lemma_rows_agree(
    g: CGrammar,
    pa: Seq<Seq<Item>>,
    pb: Seq<Seq<Item>>,
    s1: Seq<Item>,
    s2: Seq<Item>,
    r1: Seq<Item>,
    r2: Seq<Item>,
)
    requires
        same_rows(pa, pb),
        same_items(s1, s2),
        s1.is_prefix_of(r1),
        s2.is_prefix_of(r2),
        closed_from(g, pa, r1, 0),
        closed_from(g, pb, r2, 0),
        forall|i: int| 0 <= i < r1.len() ==> derivable(g, pa, s1, #[trigger] r1[i]),
        forall|i: int| 0 <= i < r2.len() ==> derivable(g, pb, s2, #[trigger] r2[i]),
    ensures
        same_items(r1, r2),
{
    lemma_closed_row_is_least(g, pa, s1, r1);
    lemma_closed_row_is_least(g, pb, s2, r2);
    assert(same_rows(pb, pa)) by {
        assert forall|i: int| 0 <= i < pb.len() implies same_items(#[trigger] pb[i], pa[i]) by {
            assert(same_items(pa[i], pb[i]));
        }
    }
    assert(same_items(s2, s1)) by {
        assert forall|it: Item| #[trigger] s2.contains(it) == s1.contains(it) by {
            assert(s1.contains(it) == s2.contains(it));
        }
    }
    assert forall|it: Item| #[trigger] r1.contains(it) == r2.contains(it) by {
        if r1.contains(it) {
            lemma_derivable_same(g, pa, pb, s1, s2, it);
        }
        if r2.contains(it) {
            lemma_derivable_same(g, pb, pa, s2, s1, it);
        }
    }
}

} // verus!
