//! Building a row in the scratch space: the steps that one item of the agenda
//! gives rise to.

use vstd::prelude::*;
use crate::earley::closure::closed_from;
use crate::earley::closure::same_items;
use crate::earley::closure::completes;
use crate::earley::closure::item_valid;
use crate::earley::closure::lemma_row_bound;
use crate::earley::closure::lemma_row_inv_add;
use crate::earley::closure::lemma_seeds_derivable;
use crate::earley::closure::lemma_rows_view_stable;
use crate::earley::closure::predicts;
use crate::earley::closure::prev_valid;
use crate::earley::closure::row_inv;
use crate::earley::closure::rows_fit;
use crate::earley::closure::rows_view;
use crate::earley::closure::skips_nullable;
use crate::earley::closure::step;
use crate::earley::closure::waits_for;
use crate::earley::closure::with_item;
use crate::earley::closure::with_items;
use crate::earley::closure::completed;
use crate::earley::closure::predicted;
use crate::earley::closure::null_advance;
use crate::earley::closure::steps_of;
use crate::earley::closure::closed_run;
use crate::earley::closure::is_closed_run;
use crate::earley::grammar::CGrammar;
use crate::earley::grammar::RuleIdx;
use crate::earley::item::Item;
use crate::earley::item::Row;
use crate::earley::item::Scratch;
use crate::earley::lexerspec::Lexeme;
use crate::earley::lexerspec::LexemeIdx;
use crate::earley::lexerspec::LexemeSet;
use crate::earley::parser::RowInfo;

verus! {

/// The rows before the one under construction, as the scratch space holds
/// them.
pub open spec fn prev_of(rows: Seq<Row>, scratch: Scratch, curr_idx: nat) -> Seq<Seq<Item>> {
    rows_view(rows, scratch.items_view(), curr_idx)
}

/// What row building relies on: a well-formed grammar, earlier rows that lie
/// before the row under construction and hold valid items, and a row index
/// that fits an item.
pub open spec fn build_ctx(g: CGrammar, rows: Seq<Row>, scratch: Scratch, curr_idx: nat) -> bool {
    &&& g.wf()
    &&& scratch.wf()
    &&& curr_idx < 0x1_0000_0000
    &&& rows_fit(rows, curr_idx, scratch.row_start_spec())
    &&& prev_valid(g, prev_of(rows, scratch, curr_idx))
}

/// How the scratch space may change while a row is built: the row only
/// grows at its end, and nothing before it changes.
pub open spec fn row_grows(before: Scratch, after: Scratch) -> bool {
    &&& after.row_start_spec() == before.row_start_spec()
    &&& after.is_definitive() == before.is_definitive()
    &&& after.before_row() == before.before_row()
    &&& before.row_view().is_prefix_of(after.row_view())
    &&& after.items_view().len() >= before.items_view().len()
    &&& after.props_view().len() >= before.props_view().len()
}

pub proof fn lemma_row_grows_trans(a: Scratch, b: Scratch, c: Scratch)
    requires
        row_grows(a, b),
        row_grows(b, c),
    ensures
        row_grows(a, c),
{
    assert(a.row_view() =~= c.row_view().subrange(0, a.row_view().len() as int)) by {
        assert(a.row_view() =~= b.row_view().subrange(0, a.row_view().len() as int));
        assert(b.row_view() =~= c.row_view().subrange(0, b.row_view().len() as int));
    }
}

/// What was in the row stays in it when the row grows.
pub proof fn lemma_row_grows_contains(a: Scratch, b: Scratch, it: Item)
    requires
        row_grows(a, b),
        a.row_view().contains(it),
    ensures
        b.row_view().contains(it),
{
    let p = choose|p: int| 0 <= p < a.row_view().len() && a.row_view()[p] == it;
    assert(a.row_view() =~= b.row_view().subrange(0, a.row_view().len() as int));
    assert(b.row_view()[p] == a.row_view().subrange(0, a.row_view().len() as int)[p]);
    assert(b.row_view()[p] == it);
}

/// An item of the row keeps its slot when the row grows.
pub proof fn lemma_row_grows_item(a: Scratch, b: Scratch, idx: int)
    requires
        a.wf(),
        b.wf(),
        row_grows(a, b),
        a.row_start_spec() <= idx < a.row_end_spec(),
    ensures
        idx < b.row_end_spec(),
        b.items_view()[idx] == a.items_view()[idx],
{
    let off = idx - a.row_start_spec();
    assert(a.row_view() =~= b.row_view().subrange(0, a.row_view().len() as int));
    assert(a.row_view()[off] == a.items_view()[idx]);
    assert(b.row_view()[off] == b.items_view()[idx]);
    assert(b.row_view().subrange(0, a.row_view().len() as int)[off] == b.row_view()[off]);
}

/// Growing the row leaves the earlier rows as they were.
pub proof fn lemma_row_grows_prev(rows: Seq<Row>, a: Scratch, b: Scratch, curr_idx: nat)
    requires
        a.wf(),
        b.wf(),
        row_grows(a, b),
        rows_fit(rows, curr_idx, a.row_start_spec()),
    ensures
        prev_of(rows, a, curr_idx) == prev_of(rows, b, curr_idx),
{
    lemma_rows_view_stable(rows, a.items_view(), b.items_view(), curr_idx, a.row_start_spec());
}

/// Adds `item` to the row unless the row holds it, as the result of a step
/// from the item in slot `from_idx`.
fn add_step(
    scratch: &mut Scratch,
    grammar: &CGrammar,
    rows: &Vec<Row>,
    curr_idx: usize,
    item: Item,
    from_idx: usize,
    origin_idx: usize,
    Ghost(seeds): Ghost<Seq<Item>>,
)
    requires
        build_ctx(*grammar, rows@, *old(scratch), curr_idx as nat),
        row_inv(*grammar, prev_of(rows@, *old(scratch), curr_idx as nat), seeds, old(scratch).row_view()),
        old(scratch).row_start_spec() <= from_idx < old(scratch).row_end_spec(),
        origin_idx < old(scratch).row_end_spec(),
        step(
            *grammar,
            prev_of(rows@, *old(scratch), curr_idx as nat),
            old(scratch).items_view()[from_idx as int],
            item,
        ),
    ensures
        build_ctx(*grammar, rows@, *final(scratch), curr_idx as nat),
        row_grows(*old(scratch), *final(scratch)),
        prev_of(rows@, *final(scratch), curr_idx as nat) == prev_of(rows@, *old(scratch), curr_idx as nat),
        row_inv(*grammar, prev_of(rows@, *old(scratch), curr_idx as nat), seeds, final(scratch).row_view()),
        final(scratch).row_view() == with_item(old(scratch).row_view(), item),
        final(scratch).row_view().contains(item),
{
    proof {
        let row = scratch.row_view();
        let from = scratch.items_view()[from_idx as int];
        assert(row[from_idx - scratch.row_start_spec()] == from);
        lemma_row_inv_add(
            *grammar,
            prev_of(rows@, *scratch, curr_idx as nat),
            seeds,
            row,
            from,
            item,
        );
    }
    scratch.add_unique(item, origin_idx);
    proof {
        let r0 = old(scratch).row_view();
        let r1 = scratch.row_view();
        assert(r0 =~= r1.subrange(0, r0.len() as int));
        if !r0.contains(item) {
            assert(r1[r0.len() as int] == item);
        }
        lemma_row_grows_prev(rows@, *old(scratch), *scratch, curr_idx as nat);
    }
}

/// Completion for the item in slot `item_idx`, a completed rule: every item
/// of the rule's origin row that waits for the rule's left-hand side is added
/// with its dot moved on. A rule that began in the row under construction
/// adds nothing: null advance has moved those dots already.
pub(crate) fn complete_item(
    scratch: &mut Scratch,
    grammar: &CGrammar,
    rows: &Vec<Row>,
    curr_idx: usize,
    item_idx: usize,
    Ghost(seeds): Ghost<Seq<Item>>,
)
    requires
        build_ctx(*grammar, rows@, *old(scratch), curr_idx as nat),
        row_inv(*grammar, prev_of(rows@, *old(scratch), curr_idx as nat), seeds, old(scratch).row_view()),
        old(scratch).row_start_spec() <= item_idx < old(scratch).row_end_spec(),
        grammar.is_complete(old(scratch).items_view()[item_idx as int].rule_spec()),
    ensures
        build_ctx(*grammar, rows@, *final(scratch), curr_idx as nat),
        row_grows(*old(scratch), *final(scratch)),
        prev_of(rows@, *final(scratch), curr_idx as nat) == prev_of(rows@, *old(scratch), curr_idx as nat),
        row_inv(*grammar, prev_of(rows@, *old(scratch), curr_idx as nat), seeds, final(scratch).row_view()),
        forall|b: Item|
            step(
                *grammar,
                prev_of(rows@, *old(scratch), curr_idx as nat),
                old(scratch).items_view()[item_idx as int],
                b,
            ) ==> final(scratch).row_view().contains(b),
        final(scratch).row_view() == with_items(
            old(scratch).row_view(),
            steps_of(
                *grammar,
                prev_of(rows@, *old(scratch), curr_idx as nat),
                old(scratch).items_view()[item_idx as int],
            ),
        ),
{
    let ghost prev = prev_of(rows@, *scratch, curr_idx as nat);
    let item = scratch.item_at(item_idx);
    proof {
        assert(scratch.row_view()[item_idx - scratch.row_start_spec()] == item);
        assert(item_valid(*grammar, curr_idx as nat, item));
        assert(scratch.row_view() =~= scratch.row_view().subrange(0, scratch.row_view().len() as int));
    }
    let start = item.start_pos();
    if start < curr_idx {
        let lhs = grammar.sym_idx_lhs(item.rule_idx());
        let first = rows[start].first_item;
        let last = rows[start].last_item;
        let mut i: usize = first;
        proof {
            assert(rows@[start as int].first_item <= rows@[start as int].last_item);
            assert(prev[start as int].len() == last - first);
        }
        while i < last
            invariant
                first <= i <= last,
                first == rows@[start as int].first_item,
                last == rows@[start as int].last_item,
                start < curr_idx,
                start == item.start_spec(),
                old(scratch).wf(),
                scratch.row_start_spec() <= item_idx < scratch.row_end_spec(),
                item == scratch.items_view()[item_idx as int],
                item_valid(*grammar, curr_idx as nat, item),
                lhs == grammar.lhs_spec(item.rule_spec()),
                grammar.is_complete(item.rule_spec()),
                build_ctx(*grammar, rows@, *scratch, curr_idx as nat),
                row_grows(*old(scratch), *scratch),
                prev == prev_of(rows@, *scratch, curr_idx as nat),
                prev == prev_of(rows@, *old(scratch), curr_idx as nat),
                row_inv(*grammar, prev, seeds, scratch.row_view()),
                forall|j: int|
                    0 <= j < i - first && waits_for(*grammar, #[trigger] prev[start as int][j], lhs)
                        ==> scratch.row_view().contains(prev[start as int][j].advance_spec()),
                prev.len() == curr_idx,
                prev[start as int].len() == last - first,
                scratch.row_view() == with_items(
                    old(scratch).row_view(),
                    completed(*grammar, prev[start as int], lhs, i - first),
                ),
            decreases last - i,
        {
            let ghost before = *scratch;
            let w = scratch.item_at(i);
            proof {
                assert(prev[start as int][i - first] == w);
                assert(item_valid(*grammar, start as nat, prev[start as int][i - first]));
            }
            if grammar.sym_idx_dot(w.rule_idx()) == lhs {
                proof {
                    assert(grammar.rule_wf(item.rule_spec()));
                    assert(grammar.rule_wf(w.rule_spec()));
                    assert(waits_for(*grammar, prev[start as int][i - first], lhs));
                    assert(completes(*grammar, prev, item, w.advance_spec()));
                }
                add_step(scratch, grammar, rows, curr_idx, w.advance_dot(), item_idx, i, Ghost(seeds));
                proof {
                    let done = completed(*grammar, prev[start as int], lhs, i - first);
                    let more = completed(*grammar, prev[start as int], lhs, i + 1 - first);
                    assert(more == done.push(w.advance_spec()));
                    assert(more.drop_last() =~= done);
                    assert(more.last() == w.advance_spec());
                    lemma_row_grows_trans(*old(scratch), before, *scratch);
                    lemma_row_grows_item(before, *scratch, item_idx as int);
                    assert forall|j: int|
                        0 <= j < i + 1 - first && waits_for(
                            *grammar,
                            #[trigger] prev[start as int][j],
                            lhs,
                        ) implies scratch.row_view().contains(prev[start as int][j].advance_spec()) by {
                        if j < i - first {
                            lemma_row_grows_contains(before, *scratch, prev[start as int][j].advance_spec());
                        }
                    }
                }
            } else {
                proof {
                    assert(!waits_for(*grammar, prev[start as int][i - first], lhs));
                    assert(completed(*grammar, prev[start as int], lhs, i + 1 - first) == completed(
                        *grammar,
                        prev[start as int],
                        lhs,
                        i - first,
                    ));
                }
            }
            i += 1;
        }
        proof {
            assert forall|b: Item| step(*grammar, prev, item, b) implies scratch.row_view().contains(
                b,
            ) by {
                assert(completes(*grammar, prev, item, b));
                let j = choose|j: int|
                    0 <= j < prev[start as int].len() && waits_for(
                        *grammar,
                        #[trigger] prev[start as int][j],
                        lhs,
                    ) && b == prev[start as int][j].advance_spec();
                assert(prev[start as int].len() == last - first);
            }
        }
    } else {
        proof {
            assert(prev.len() == curr_idx);
            assert(steps_of(*grammar, prev, item) =~= Seq::<Item>::empty());
        }
    }
}

/// Null advance and prediction for the item in slot `item_idx`, whose dot
/// stands before a symbol: the item with its dot moved on, where the symbol
/// can derive the empty string, and the start of each rule of the symbol.
pub(crate) fn predict_item(
    scratch: &mut Scratch,
    grammar: &CGrammar,
    rows: &Vec<Row>,
    curr_idx: usize,
    item_idx: usize,
    Ghost(seeds): Ghost<Seq<Item>>,
)
    requires
        build_ctx(*grammar, rows@, *old(scratch), curr_idx as nat),
        row_inv(*grammar, prev_of(rows@, *old(scratch), curr_idx as nat), seeds, old(scratch).row_view()),
        old(scratch).row_start_spec() <= item_idx < old(scratch).row_end_spec(),
        !grammar.is_complete(old(scratch).items_view()[item_idx as int].rule_spec()),
    ensures
        build_ctx(*grammar, rows@, *final(scratch), curr_idx as nat),
        row_grows(*old(scratch), *final(scratch)),
        prev_of(rows@, *final(scratch), curr_idx as nat) == prev_of(rows@, *old(scratch), curr_idx as nat),
        row_inv(*grammar, prev_of(rows@, *old(scratch), curr_idx as nat), seeds, final(scratch).row_view()),
        forall|b: Item|
            step(
                *grammar,
                prev_of(rows@, *old(scratch), curr_idx as nat),
                old(scratch).items_view()[item_idx as int],
                b,
            ) ==> final(scratch).row_view().contains(b),
        final(scratch).row_view() == with_items(
            old(scratch).row_view(),
            steps_of(
                *grammar,
                prev_of(rows@, *old(scratch), curr_idx as nat),
                old(scratch).items_view()[item_idx as int],
            ),
        ),
{
    let ghost prev = prev_of(rows@, *scratch, curr_idx as nat);
    let item = scratch.item_at(item_idx);
    proof {
        assert(scratch.row_view()[item_idx - scratch.row_start_spec()] == item);
        assert(item_valid(*grammar, curr_idx as nat, item));
        assert(grammar.rule_wf(item.rule_spec()));
        assert(grammar.symbol_wf(grammar.sym_dot_spec(item.rule_spec())));
        assert(scratch.row_view() =~= scratch.row_view().subrange(0, scratch.row_view().len() as int));
    }
    let sym_data = grammar.sym_data_dot(item.rule_idx());
    if sym_data.is_nullable {
        proof {
            assert(skips_nullable(*grammar, item, item.advance_spec()));
        }
        add_step(scratch, grammar, rows, curr_idx, item.advance_dot(), item_idx, item_idx, Ghost(seeds));
        proof {
            lemma_row_grows_item(*old(scratch), *scratch, item_idx as int);
            let head = null_advance(*grammar, item);
            assert(head =~= seq![item.advance_spec()]);
            assert(head.len() == 1);
            assert(head.last() == item.advance_spec());
            assert(head.drop_last() =~= Seq::<Item>::empty());
            assert(with_items(old(scratch).row_view(), head.drop_last()) == old(scratch).row_view());
            assert(scratch.row_view() == with_items(old(scratch).row_view(), head));
        }
    }
    let n = sym_data.rules.len();
    let mut i: usize = 0;
    proof {
        let head = null_advance(*grammar, item);
        assert(head + predicted(sym_data.rules@, curr_idx as nat, 0) =~= head);
    }
    while i < n
        invariant
            i <= n,
            n == sym_data.rules@.len(),
            *sym_data == grammar.symbol_dot(item.rule_spec()),
            old(scratch).wf(),
            scratch.row_start_spec() <= item_idx < scratch.row_end_spec(),
            item == scratch.items_view()[item_idx as int],
            item_valid(*grammar, curr_idx as nat, item),
            !grammar.is_complete(item.rule_spec()),
            build_ctx(*grammar, rows@, *scratch, curr_idx as nat),
            row_grows(*old(scratch), *scratch),
            prev == prev_of(rows@, *scratch, curr_idx as nat),
            prev == prev_of(rows@, *old(scratch), curr_idx as nat),
            row_inv(*grammar, prev, seeds, scratch.row_view()),
            sym_data.is_nullable ==> scratch.row_view().contains(item.advance_spec()),
            forall|j: int|
                0 <= j < i ==> scratch.row_view().contains(
                    Item::spec_new(#[trigger] sym_data.rules@[j], curr_idx as nat),
                ),
            prev.len() == curr_idx,
            scratch.row_view() == with_items(
                old(scratch).row_view(),
                null_advance(*grammar, item) + predicted(sym_data.rules@, curr_idx as nat, i as int),
            ),
        decreases n - i,
    {
        let ghost before = *scratch;
        let rule = sym_data.rules[i];
        proof {
            assert(predicts(*grammar, curr_idx as nat, item, Item::spec_new(sym_data.rules@[i as int], curr_idx as nat)));
            assert(prev.len() == curr_idx);
        }
        add_step(scratch, grammar, rows, curr_idx, Item::new(rule, curr_idx), item_idx, item_idx, Ghost(seeds));
        proof {
            let head = null_advance(*grammar, item);
            let done = head + predicted(sym_data.rules@, curr_idx as nat, i as int);
            let more = head + predicted(sym_data.rules@, curr_idx as nat, i + 1);
            let x = Item::spec_new(sym_data.rules@[i as int], curr_idx as nat);
            assert(more =~= done.push(x));
            assert(more.drop_last() =~= done);
            assert(more.last() == x);
            lemma_row_grows_trans(*old(scratch), before, *scratch);
            lemma_row_grows_item(before, *scratch, item_idx as int);
            if sym_data.is_nullable {
                lemma_row_grows_contains(before, *scratch, item.advance_spec());
            }
            assert forall|j: int| 0 <= j < i + 1 implies scratch.row_view().contains(
                Item::spec_new(#[trigger] sym_data.rules@[j], curr_idx as nat),
            ) by {
                if j < i {
                    lemma_row_grows_contains(
                        before,
                        *scratch,
                        Item::spec_new(sym_data.rules@[j], curr_idx as nat),
                    );
                }
            }
        }
        i += 1;
    }
    let ghost built = scratch.row_view();
    if scratch.definitive && sym_data.props.hidden {
        let mut k: usize = 0;
        while k < n
            invariant
                k <= n,
                scratch.row_view() == built,
                n == sym_data.rules@.len(),
                curr_idx < 0x1_0000_0000,
                scratch.wf(),
                scratch.is_definitive(),
                build_ctx(*grammar, rows@, *scratch, curr_idx as nat),
                row_grows(*old(scratch), *scratch),
                prev == prev_of(rows@, *scratch, curr_idx as nat),
                row_inv(*grammar, prev, seeds, scratch.row_view()),
                forall|b: Item|
                    step(*grammar, prev, item, b) ==> scratch.row_view().contains(b),
            decreases n - k,
        {
            let ghost before = *scratch;
            scratch.set_hidden_start(Item::new(sym_data.rules[k], curr_idx), curr_idx);
            proof {
                assert(scratch.row_view() == before.row_view());
                assert(scratch.before_row() == before.before_row());
                assert(prev_of(rows@, *scratch, curr_idx as nat) == prev_of(rows@, before, curr_idx as nat));
            }
            k += 1;
        }
    }
}

/// A capture as a pair of plain sequences.
pub open spec fn capture_view(c: (String, Vec<u8>)) -> (Seq<char>, Seq<u8>) {
    (c.0@, c.1@)
}

/// A list of captures as plain sequences.
pub open spec fn captures_seq(c: Seq<(String, Vec<u8>)>) -> Seq<(Seq<char>, Seq<u8>)> {
    c.map_values(|x: (String, Vec<u8>)| capture_view(x))
}

/// Whether `it` has a terminal of lexeme class `lx` after its dot.
pub open spec fn item_wants(g: CGrammar, it: Item, lx: int) -> bool {
    &&& !g.is_complete(it.rule_spec())
    &&& g.symbol_dot(it.rule_spec()).lexeme matches Some(l)
    &&& l.0 == lx
}

/// Whether some item of `row` at a position in `from..to` has a terminal of
/// lexeme class `lx` after its dot.
pub open spec fn wants_lexeme(g: CGrammar, row: Seq<Item>, from: int, to: int, lx: int) -> bool {
    exists|i: int| from <= i < to && 0 <= i < row.len() && item_wants(g, #[trigger] row[i], lx)
}

/// The flags of a new row: the skip class, and every class that an item of
/// the row at a position from `from` on waits for.
pub open spec fn allowed_of(g: CGrammar, row: Seq<Item>, from: int, lx: int) -> bool {
    lx == 0 || wants_lexeme(g, row, from, row.len() as int, lx)
}

/// The lexeme classes that a row allows do not depend on the order of its
/// items.
pub proof fn lemma_allowed_same(g: CGrammar, r1: Seq<Item>, r2: Seq<Item>, lx: int)
    requires
        same_items(r1, r2),
    ensures
        allowed_of(g, r1, 0, lx) == allowed_of(g, r2, 0, lx),
{
    if wants_lexeme(g, r1, 0, r1.len() as int, lx) {
        let i = choose|i: int| 0 <= i < r1.len() && 0 <= i < r1.len() && item_wants(g, #[trigger] r1[i], lx);
        assert(r1.contains(r1[i]));
        assert(r2.contains(r1[i]));
        let j = choose|j: int| 0 <= j < r2.len() && r2[j] == r1[i];
        assert(item_wants(g, r2[j], lx));
    }
    if wants_lexeme(g, r2, 0, r2.len() as int, lx) {
        let i = choose|i: int| 0 <= i < r2.len() && 0 <= i < r2.len() && item_wants(g, #[trigger] r2[i], lx);
        assert(r2.contains(r2[i]));
        assert(r1.contains(r2[i]));
        let j = choose|j: int| 0 <= j < r1.len() && r1[j] == r2[i];
        assert(item_wants(g, r1[j], lx));
    }
}

/// The budget entry that `it` gives rise to: its terminal's lexeme class
/// with the terminal's token budget, where that budget is a limit.
pub open spec fn item_budget(g: CGrammar, it: Item) -> Seq<(LexemeIdx, usize)> {
    let sym = g.symbol_dot(it.rule_spec());
    if !g.is_complete(it.rule_spec()) && sym.lexeme is Some && sym.props.max_tokens != usize::MAX {
        seq![(sym.lexeme->0, sym.props.max_tokens)]
    } else {
        seq![]
    }
}

/// The budget entries of the items of `items`, in order.
pub open spec fn row_budgets(g: CGrammar, items: Seq<Item>) -> Seq<(LexemeIdx, usize)>
    decreases items.len(),
{
    if items.len() == 0 {
        seq![]
    } else {
        row_budgets(g, items.drop_last()) + item_budget(g, items.last())
    }
}

/// The visible bytes of the lexemes of rows `from..to`, in order.
pub open spec fn visible_concat(infos: Seq<RowInfo>, from: int, to: int) -> Seq<u8>
    decreases to - from,
{
    if from >= to {
        seq![]
    } else {
        visible_concat(infos, from, to - 1) + infos[to - 1].lexeme.visible_bytes_spec()
    }
}

/// The captures that processing `it` in row `curr_idx` records, when the
/// row is entered by a lexeme with the given visible and hidden bytes: for a
/// completed rule of a symbol that stops a capture, the hidden bytes; for a
/// completed rule of a capturing symbol, the visible bytes from the rule's
/// origin row up to and including the lexeme; for a dot before a nullable
/// capturing symbol, the empty capture.
pub open spec fn item_captures(
    g: CGrammar,
    infos: Seq<RowInfo>,
    visible: Seq<u8>,
    hidden: Seq<u8>,
    curr_idx: nat,
    it: Item,
) -> Seq<(Seq<char>, Seq<u8>)> {
    let rule = it.rule_spec();
    if g.is_complete(rule) {
        let sym = g.symbol(g.lhs_spec(rule));
        let stop: Seq<(Seq<char>, Seq<u8>)> = if sym.sym_flags.stop_capture {
            seq![(sym.props.stop_capture_name->0@, hidden)]
        } else {
            seq![]
        };
        let cap: Seq<(Seq<char>, Seq<u8>)> = if sym.sym_flags.capture {
            seq![
                (
                    sym.props.capture_name->0@,
                    visible_concat(infos, it.start_spec() as int, curr_idx as int) + visible,
                ),
            ]
        } else {
            seq![]
        };
        stop + cap
    } else {
        let sym = g.symbol_dot(rule);
        if sym.is_nullable && sym.props.capture_name is Some {
            seq![(sym.props.capture_name->0@, Seq::<u8>::empty())]
        } else {
            seq![]
        }
    }
}

/// The captures that processing the items of `items` records, in order.
pub open spec fn row_captures(
    g: CGrammar,
    infos: Seq<RowInfo>,
    visible: Seq<u8>,
    hidden: Seq<u8>,
    curr_idx: nat,
    items: Seq<Item>,
) -> Seq<(Seq<char>, Seq<u8>)>
    decreases items.len(),
{
    if items.len() == 0 {
        seq![]
    } else {
        row_captures(g, infos, visible, hidden, curr_idx, items.drop_last()) + item_captures(
            g,
            infos,
            visible,
            hidden,
            curr_idx,
            items.last(),
        )
    }
}

/// The visible bytes of the lexemes of rows `from..to`.
fn collect_visible(row_infos: &Vec<RowInfo>, from: usize, to: usize) -> (r: Vec<u8>)
    requires
        to <= row_infos@.len(),
        forall|i: int| 0 <= i < row_infos@.len() ==> (#[trigger] row_infos@[i]).lexeme.wf(),
    ensures
        r@ == visible_concat(row_infos@, from as int, to as int),
{
    let mut out: Vec<u8> = Vec::new();
    if from >= to {
        return out;
    }
    let mut i: usize = from;
    while i < to
        invariant
            from <= i <= to <= row_infos@.len(),
            forall|k: int| 0 <= k < row_infos@.len() ==> (#[trigger] row_infos@[k]).lexeme.wf(),
            out@ == visible_concat(row_infos@, from as int, i as int),
        decreases to - i,
    {
        let mut part = row_infos[i].lexeme.visible_bytes();
        out.append(&mut part);
        i += 1;
    }
    out
}

/// Records a capture.
fn push_capture(captures: &mut Vec<(String, Vec<u8>)>, name: &String, bytes: Vec<u8>)
    ensures
        captures_seq(final(captures)@) == captures_seq(old(captures)@).push((name@, bytes@)),
{
    captures.push((name.clone(), bytes));
    assert(captures_seq(captures@) =~= captures_seq(old(captures)@).push((name@, bytes@)));
}

/// Handles the item in slot `item_idx` of the agenda: records its captures
/// (in definitive mode), notes the lexeme class it waits for, and adds to the
/// row what completion, null advance and prediction give from it.
pub(crate) fn process_item(
    scratch: &mut Scratch,
    grammar: &CGrammar,
    rows: &Vec<Row>,
    row_infos: &Vec<RowInfo>,
    captures: &mut Vec<(String, Vec<u8>)>,
    curr_idx: usize,
    item_idx: usize,
    lexeme: &Lexeme,
    allowed: &mut LexemeSet,
    budgets: &mut Vec<(LexemeIdx, usize)>,
    Ghost(seeds): Ghost<Seq<Item>>,
)
    requires
        build_ctx(*grammar, rows@, *old(scratch), curr_idx as nat),
        row_inv(*grammar, prev_of(rows@, *old(scratch), curr_idx as nat), seeds, old(scratch).row_view()),
        old(scratch).row_start_spec() <= item_idx < old(scratch).row_end_spec(),
        old(allowed)@.len() == grammar.num_lexemes(),
        old(scratch).is_definitive() ==> {
            &&& curr_idx <= row_infos@.len()
            &&& lexeme.wf()
            &&& forall|i: int| 0 <= i < row_infos@.len() ==> (#[trigger] row_infos@[i]).lexeme.wf()
        },
    ensures
        build_ctx(*grammar, rows@, *final(scratch), curr_idx as nat),
        row_grows(*old(scratch), *final(scratch)),
        prev_of(rows@, *final(scratch), curr_idx as nat) == prev_of(rows@, *old(scratch), curr_idx as nat),
        row_inv(*grammar, prev_of(rows@, *old(scratch), curr_idx as nat), seeds, final(scratch).row_view()),
        forall|b: Item|
            step(
                *grammar,
                prev_of(rows@, *old(scratch), curr_idx as nat),
                old(scratch).items_view()[item_idx as int],
                b,
            ) ==> final(scratch).row_view().contains(b),
        final(scratch).row_view() == with_items(
            old(scratch).row_view(),
            steps_of(
                *grammar,
                prev_of(rows@, *old(scratch), curr_idx as nat),
                old(scratch).items_view()[item_idx as int],
            ),
        ),
        final(allowed)@.len() == old(allowed)@.len(),
        forall|lx: int|
            0 <= lx < old(allowed)@.len() ==> #[trigger] final(allowed)@[lx] == (old(allowed)@[lx]
                || item_wants(*grammar, old(scratch).items_view()[item_idx as int], lx)),
        final(budgets)@ == old(budgets)@ + (if old(scratch).is_definitive() {
            item_budget(*grammar, old(scratch).items_view()[item_idx as int])
        } else {
            seq![]
        }),
        captures_seq(final(captures)@) == captures_seq(old(captures)@) + (if old(scratch).is_definitive() {
            item_captures(
                *grammar,
                row_infos@,
                lexeme.visible_bytes_spec(),
                lexeme.hidden_bytes_spec(),
                curr_idx as nat,
                old(scratch).items_view()[item_idx as int],
            )
        } else {
            seq![]
        }),
{
    let item = scratch.item_at(item_idx);
    proof {
        assert(scratch.row_view()[item_idx - scratch.row_start_spec()] == item);
        assert(item_valid(*grammar, curr_idx as nat, item));
        assert(grammar.rule_wf(item.rule_spec()));
    }
    let rule = item.rule_idx();
    let after_dot = grammar.sym_idx_dot(rule);
    if after_dot.is_null() {
        let flags = grammar.sym_flags_lhs(rule);
        let lhs = grammar.sym_idx_lhs(rule);
        proof {
            assert(grammar.symbol_wf(lhs));
        }
        let ghost c0 = captures_seq(captures@);
        if scratch.definitive && flags.stop_capture() {
            match &grammar.sym_data(lhs).props.stop_capture_name {
                Some(var_name) => {
                    let bytes = lexeme.hidden_bytes();
                    push_capture(captures, var_name, bytes);
                },
                None => {},
            }
        }
        let ghost c1 = captures_seq(captures@);
        if scratch.definitive && flags.capture() {
            match &grammar.sym_data(lhs).props.capture_name {
                Some(var_name) => {
                    let capture_start = item.start_pos();
                    let mut bytes = collect_visible(row_infos, capture_start, curr_idx);
                    let mut tail = lexeme.visible_bytes();
                    bytes.append(&mut tail);
                    push_capture(captures, var_name, bytes);
                },
                None => {},
            }
        }
        proof {
            let expect = if scratch.is_definitive() {
                item_captures(
                    *grammar,
                    row_infos@,
                    lexeme.visible_bytes_spec(),
                    lexeme.hidden_bytes_spec(),
                    curr_idx as nat,
                    item,
                )
            } else {
                seq![]
            };
            assert(captures_seq(captures@) =~= c0 + expect);
            assert(budgets@ =~= old(budgets)@ + Seq::<(LexemeIdx, usize)>::empty());
        }
        complete_item(scratch, grammar, rows, curr_idx, item_idx, Ghost(seeds));
    } else {
        let sym_data = grammar.sym_data(after_dot);
        proof {
            assert(grammar.symbol_wf(after_dot));
        }
        match sym_data.lexeme {
            Some(lx) => {
                allowed.set(lx.as_usize(), true);
                if scratch.definitive && sym_data.props.max_tokens != usize::MAX {
                    budgets.push((lx, sym_data.props.max_tokens));
                }
            },
            None => {},
        }
        if scratch.definitive && sym_data.is_nullable {
            match &sym_data.props.capture_name {
                Some(var_name) => {
                    push_capture(captures, var_name, Vec::new());
                },
                None => {},
            }
        }
        proof {
            let expect_b = if scratch.is_definitive() {
                item_budget(*grammar, item)
            } else {
                seq![]
            };
            assert(budgets@ =~= old(budgets)@ + expect_b);
            let expect_c = if scratch.is_definitive() {
                item_captures(
                    *grammar,
                    row_infos@,
                    lexeme.visible_bytes_spec(),
                    lexeme.hidden_bytes_spec(),
                    curr_idx as nat,
                    item,
                )
            } else {
                seq![]
            };
            assert(captures_seq(captures@) =~= captures_seq(old(captures)@) + expect_c);
        }
        predict_item(scratch, grammar, rows, curr_idx, item_idx, Ghost(seeds));
    }
}

/// A row that grew agrees with what it was at every position it had.
pub proof fn lemma_prefix_index(a: Seq<Item>, b: Seq<Item>, i: int)
    requires
        a.is_prefix_of(b),
        0 <= i < a.len(),
    ensures
        b[i] == a[i],
{
    assert(a =~= b.subrange(0, a.len() as int));
    assert(b.subrange(0, a.len() as int)[i] == b[i]);
}

/// Runs the agenda of the row under construction to its end: every item
/// from slot `agenda_ptr` on is handled, and so is every item that handling
/// them adds. Returns the lexeme classes that the handled items wait for,
/// and, in definitive mode, their budget entries.
pub(crate) fn close_row(
    scratch: &mut Scratch,
    grammar: &CGrammar,
    rows: &Vec<Row>,
    row_infos: &Vec<RowInfo>,
    captures: &mut Vec<(String, Vec<u8>)>,
    curr_idx: usize,
    agenda_ptr: usize,
    lexeme: &Lexeme,
) -> (r: (LexemeSet, Vec<(LexemeIdx, usize)>))
    requires
        build_ctx(*grammar, rows@, *old(scratch), curr_idx as nat),
        old(scratch).row_view().no_duplicates(),
        forall|i: int|
            0 <= i < old(scratch).row_view().len() ==> item_valid(
                *grammar,
                curr_idx as nat,
                #[trigger] old(scratch).row_view()[i],
            ),
        old(scratch).row_start_spec() <= agenda_ptr <= old(scratch).row_end_spec(),
        old(scratch).is_definitive() ==> {
            &&& curr_idx <= row_infos@.len()
            &&& lexeme.wf()
            &&& forall|i: int| 0 <= i < row_infos@.len() ==> (#[trigger] row_infos@[i]).lexeme.wf()
        },
    ensures
        build_ctx(*grammar, rows@, *final(scratch), curr_idx as nat),
        row_grows(*old(scratch), *final(scratch)),
        prev_of(rows@, *final(scratch), curr_idx as nat) == prev_of(rows@, *old(scratch), curr_idx as nat),
        row_inv(
            *grammar,
            prev_of(rows@, *old(scratch), curr_idx as nat),
            old(scratch).row_view(),
            final(scratch).row_view(),
        ),
        closed_from(
            *grammar,
            prev_of(rows@, *old(scratch), curr_idx as nat),
            final(scratch).row_view(),
            agenda_ptr - old(scratch).row_start_spec(),
        ),
        agenda_ptr == old(scratch).row_end_spec() ==> final(scratch).row_view() == old(scratch).row_view(),
        r.0@.len() == grammar.num_lexemes(),
        forall|lx: int|
            0 <= lx < r.0@.len() ==> #[trigger] r.0@[lx] == wants_lexeme(
                *grammar,
                final(scratch).row_view(),
                agenda_ptr - old(scratch).row_start_spec(),
                final(scratch).row_view().len() as int,
                lx,
            ),
        r.1@ == (if old(scratch).is_definitive() {
            row_budgets(
                *grammar,
                final(scratch).row_view().skip(agenda_ptr - old(scratch).row_start_spec()),
            )
        } else {
            seq![]
        }),
        captures_seq(final(captures)@) == captures_seq(old(captures)@) + (if old(scratch).is_definitive() {
            row_captures(
                *grammar,
                row_infos@,
                lexeme.visible_bytes_spec(),
                lexeme.hidden_bytes_spec(),
                curr_idx as nat,
                final(scratch).row_view().skip(agenda_ptr - old(scratch).row_start_spec()),
            )
        } else {
            seq![]
        }),
        is_closed_run(
            *grammar,
            prev_of(rows@, *old(scratch), curr_idx as nat),
            old(scratch).row_view(),
            agenda_ptr - old(scratch).row_start_spec(),
            final(scratch).row_view(),
        ),
{
    let ghost seeds = scratch.row_view();
    let ghost prev = prev_of(rows@, *scratch, curr_idx as nat);
    let ghost a0 = agenda_ptr - scratch.row_start_spec();
    let ghost bound = (curr_idx + 1) * 0x1_0000_0000;
    let ghost def = scratch.is_definitive();
    let mut allowed = grammar.lexer_spec().alloc_lexeme_set();
    let mut budgets: Vec<(LexemeIdx, usize)> = Vec::new();
    let mut ptr: usize = agenda_ptr;
    proof {
        lemma_seeds_derivable(*grammar, prev, seeds);
        lemma_row_bound(*grammar, curr_idx as nat, seeds);
        assert(seeds =~= seeds.subrange(0, seeds.len() as int));
        assert(seeds.subrange(a0, a0) =~= Seq::<Item>::empty());
        assert(captures_seq(captures@) =~= captures_seq(old(captures)@) + Seq::<(Seq<char>, Seq<u8>)>::empty());
    }
    while ptr < scratch.row_end
        invariant
            build_ctx(*grammar, rows@, *scratch, curr_idx as nat),
            old(scratch).wf(),
            row_grows(*old(scratch), *scratch),
            prev == prev_of(rows@, *scratch, curr_idx as nat),
            prev == prev_of(rows@, *old(scratch), curr_idx as nat),
            seeds == old(scratch).row_view(),
            def == old(scratch).is_definitive(),
            def == scratch.is_definitive(),
            a0 == agenda_ptr - scratch.row_start_spec(),
            bound == (curr_idx + 1) * 0x1_0000_0000,
            row_inv(*grammar, prev, seeds, scratch.row_view()),
            scratch.row_view().len() <= bound,
            scratch.row_start_spec() <= agenda_ptr <= ptr <= scratch.row_end_spec(),
            agenda_ptr == old(scratch).row_end_spec() ==> ptr == agenda_ptr && scratch.row_view() == seeds,
            scratch.row_view() == closed_run(
                *grammar,
                prev,
                seeds,
                a0,
                (ptr - scratch.row_start_spec() - a0) as nat,
            ),
            forall|i: int, b: Item|
                a0 <= i < ptr - scratch.row_start_spec() && #[trigger] step(
                    *grammar,
                    prev,
                    scratch.row_view()[i],
                    b,
                ) ==> scratch.row_view().contains(b),
            allowed@.len() == grammar.num_lexemes(),
            forall|lx: int|
                0 <= lx < allowed@.len() ==> #[trigger] allowed@[lx] == wants_lexeme(
                    *grammar,
                    scratch.row_view(),
                    a0,
                    ptr - scratch.row_start_spec(),
                    lx,
                ),
            budgets@ == (if def {
                row_budgets(*grammar, scratch.row_view().subrange(a0, ptr - scratch.row_start_spec()))
            } else {
                seq![]
            }),
            captures_seq(captures@) == captures_seq(old(captures)@) + (if def {
                row_captures(
                    *grammar,
                    row_infos@,
                    lexeme.visible_bytes_spec(),
                lexeme.hidden_bytes_spec(),
                    curr_idx as nat,
                    scratch.row_view().subrange(a0, ptr - scratch.row_start_spec()),
                )
            } else {
                seq![]
            }),
            def ==> {
                &&& curr_idx <= row_infos@.len()
                &&& lexeme.wf()
                &&& forall|i: int| 0 <= i < row_infos@.len() ==> (#[trigger] row_infos@[i]).lexeme.wf()
            },
        decreases bound - (ptr - scratch.row_start_spec()),
    {
        let ghost before = *scratch;
        let ghost row0 = scratch.row_view();
        let ghost p = ptr - scratch.row_start_spec();
        let ghost item = scratch.items_view()[ptr as int];
        let ghost allowed0 = allowed@;
        let ghost budgets0 = budgets@;
        let ghost caps0 = captures_seq(captures@);
        proof {
            assert(row0[p] == item);
        }
        process_item(
            scratch,
            grammar,
            rows,
            row_infos,
            captures,
            curr_idx,
            ptr,
            lexeme,
            &mut allowed,
            &mut budgets,
            Ghost(seeds),
        );
        proof {
            let row1 = scratch.row_view();
            assert(row1 == with_items(row0, steps_of(*grammar, prev, item)));
            assert(a0 + (p + 1 - a0) - 1 == p);
            assert(row1 == closed_run(*grammar, prev, seeds, a0, (p + 1 - a0) as nat));
            lemma_row_grows_trans(*old(scratch), before, *scratch);
            lemma_row_bound(*grammar, curr_idx as nat, row1);
            assert forall|i: int| 0 <= i < row0.len() implies row1[i] == row0[i] by {
                lemma_prefix_index(row0, row1, i);
            }
            assert forall|i: int, b: Item|
                a0 <= i < p + 1 && #[trigger] step(*grammar, prev, row1[i], b) implies row1.contains(
                b,
            ) by {
                if i < p {
                    assert(step(*grammar, prev, row0[i], b));
                    lemma_row_grows_contains(before, *scratch, b);
                }
            }
            assert forall|lx: int| 0 <= lx < allowed@.len() implies #[trigger] allowed@[lx]
                == wants_lexeme(*grammar, row1, a0, p + 1, lx) by {
                if wants_lexeme(*grammar, row0, a0, p, lx) {
                    let i = choose|i: int|
                        a0 <= i < p && 0 <= i < row0.len() && item_wants(*grammar, #[trigger] row0[i], lx);
                    assert(item_wants(*grammar, row1[i], lx));
                }
                if item_wants(*grammar, item, lx) {
                    assert(item_wants(*grammar, row1[p], lx));
                }
                if wants_lexeme(*grammar, row1, a0, p + 1, lx) {
                    let i = choose|i: int|
                        a0 <= i < p + 1 && 0 <= i < row1.len() && item_wants(
                            *grammar,
                            #[trigger] row1[i],
                            lx,
                        );
                    if i < p {
                        assert(item_wants(*grammar, row0[i], lx));
                    }
                }
            }
            assert(row1.subrange(a0, p + 1).drop_last() =~= row0.subrange(a0, p));
            assert(row1.subrange(a0, p + 1).last() == item);
            if def {
                assert(captures_seq(captures@) =~= captures_seq(old(captures)@) + row_captures(
                    *grammar,
                    row_infos@,
                    lexeme.visible_bytes_spec(),
                lexeme.hidden_bytes_spec(),
                    curr_idx as nat,
                    row1.subrange(a0, p + 1),
                ));
            }
        }
        ptr += 1;
    }
    proof {
        let row = scratch.row_view();
        assert(row.subrange(a0, row.len() as int) =~= row.skip(a0));
    }
    (allowed, budgets)
}

} // verus!
