//! Making rows: scanning a lexeme into a new row and closing the row.

use vstd::prelude::*;
use crate::earley::closure::closed_from;
use crate::earley::closure::same_items;
use crate::earley::closure::item_valid;
use crate::earley::closure::prev_valid;
use crate::earley::closure::row_inv;
use crate::earley::closure::rows_fit;
use crate::earley::closure::rows_view;
use crate::earley::closure::lemma_rows_view_stable;
use crate::earley::grammar::CGrammar;
use crate::earley::grammar::CSymIdx;
use crate::earley::grammar::ModelVariable;
use crate::earley::item::Item;
use crate::earley::item::Row;
use crate::earley::lexerspec::Lexeme;
use crate::earley::lexerspec::LexemeIdx;
use crate::earley::parser::Parser;
use crate::earley::parser::ParserStats;
use crate::earley::parser::RowInfo;
use crate::earley::rowbuild::allowed_of;
use crate::earley::rowbuild::build_ctx;
use crate::earley::rowbuild::captures_seq;
use crate::earley::rowbuild::close_row;
use crate::earley::rowbuild::item_wants;
use crate::earley::rowbuild::prev_of;
use crate::earley::rowbuild::row_budgets;
use crate::earley::rowbuild::row_captures;
use crate::earley::rowbuild::row_grows;
use crate::earley::rowbuild::wants_lexeme;

verus! {

/// What the items that seed a new row are chosen by.
#[derive(Debug)]
pub enum SeedBy {
    /// The items that wait for a terminal of this lexeme class.
    Lexeme(LexemeIdx),
    /// The items that wait for this symbol.
    Symbol(CSymIdx),
    /// The items that wait for a symbol that stands for this model variable.
    Variable(ModelVariable),
}

/// Whether `it` is among the items that `by` chooses.
pub open spec fn seed_pred(g: CGrammar, by: SeedBy, it: Item) -> bool {
    match by {
        SeedBy::Lexeme(lx) => item_wants(g, it, lx.0 as int),
        SeedBy::Symbol(sym) => sym != CSymIdx::null_spec() && g.sym_dot_spec(it.rule_spec()) == sym,
        SeedBy::Variable(mv) => g.symbol_dot(it.rule_spec()).props.model_variable matches Some(mv2)
            && mv.same_spec(&mv2),
    }
}

/// The seeds of a new row: the items of `row` that `by` chooses, each with
/// its dot moved over the symbol it waits for, in the order of `row`.
pub open spec fn seeds_of(g: CGrammar, row: Seq<Item>, by: SeedBy) -> Seq<Item>
    decreases row.len(),
{
    if row.len() == 0 {
        seq![]
    } else {
        let rest = seeds_of(g, row.drop_last(), by);
        if seed_pred(g, by, row.last()) {
            rest.push(row.last().advance_spec())
        } else {
            rest
        }
    }
}

/// The seeds of a scan: the items of `row` that wait for lexeme class `lx`,
/// each with its dot moved over the terminal, in the order of `row`.
pub open spec fn scan_seeds(g: CGrammar, row: Seq<Item>, lx: LexemeIdx) -> Seq<Item> {
    seeds_of(g, row, SeedBy::Lexeme(lx))
}

/// An item that is chosen as a seed has a symbol after its dot.
pub proof fn lemma_seed_pred_open(g: CGrammar, by: SeedBy, it: Item)
    requires
        g.wf(),
        seed_pred(g, by, it),
    ensures
        !g.is_complete(it.rule_spec()),
{
}

/// Every seed is an item of the row it was chosen from, with its dot moved on.
pub proof fn lemma_seeds_from(g: CGrammar, row: Seq<Item>, by: SeedBy, k: int)
    requires
        0 <= k < seeds_of(g, row, by).len(),
    ensures
        exists|i: int|
            0 <= i < row.len() && seed_pred(g, by, #[trigger] row[i]) && seeds_of(g, row, by)[k]
                == row[i].advance_spec(),
    decreases row.len(),
{
    let rest = seeds_of(g, row.drop_last(), by);
    if k < rest.len() {
        lemma_seeds_from(g, row.drop_last(), by, k);
        let i = choose|i: int|
            0 <= i < row.drop_last().len() && seed_pred(g, by, #[trigger] row.drop_last()[i]) && rest[k]
                == row.drop_last()[i].advance_spec();
        assert(row[i] == row.drop_last()[i]);
    } else {
        assert(row[row.len() - 1] == row.last());
    }
}

/// An item that is chosen has its successor among the seeds.
pub proof fn lemma_seeds_has(g: CGrammar, row: Seq<Item>, by: SeedBy, i: int)
    requires
        0 <= i < row.len(),
        seed_pred(g, by, row[i]),
    ensures
        seeds_of(g, row, by).contains(row[i].advance_spec()),
    decreases row.len(),
{
    let rest = seeds_of(g, row.drop_last(), by);
    let out = seeds_of(g, row, by);
    if i < row.len() - 1 {
        assert(row.drop_last()[i] == row[i]);
        lemma_seeds_has(g, row.drop_last(), by, i);
        let k = choose|k: int| 0 <= k < rest.len() && rest[k] == row[i].advance_spec();
        assert(out[k] == rest[k]);
    } else {
        assert(row.last() == row[i]);
        assert(out[out.len() - 1] == row[i].advance_spec());
    }
}

/// Rows that hold the same items give the same seeds, in whatever order.
pub proof fn lemma_seeds_same(g: CGrammar, r1: Seq<Item>, r2: Seq<Item>, by: SeedBy)
    requires
        same_items(r1, r2),
    ensures
        same_items(seeds_of(g, r1, by), seeds_of(g, r2, by)),
        (seeds_of(g, r1, by).len() > 0) == (seeds_of(g, r2, by).len() > 0),
{
    let s1 = seeds_of(g, r1, by);
    let s2 = seeds_of(g, r2, by);
    assert forall|it: Item| #[trigger] s1.contains(it) == s2.contains(it) by {
        if s1.contains(it) {
            let k = choose|k: int| 0 <= k < s1.len() && s1[k] == it;
            lemma_seeds_from(g, r1, by, k);
            let i = choose|i: int|
                0 <= i < r1.len() && seed_pred(g, by, #[trigger] r1[i]) && s1[k] == r1[i].advance_spec();
            assert(r1.contains(r1[i]));
            assert(r2.contains(r1[i]));
            let j = choose|j: int| 0 <= j < r2.len() && r2[j] == r1[i];
            lemma_seeds_has(g, r2, by, j);
        }
        if s2.contains(it) {
            let k = choose|k: int| 0 <= k < s2.len() && s2[k] == it;
            lemma_seeds_from(g, r2, by, k);
            let i = choose|i: int|
                0 <= i < r2.len() && seed_pred(g, by, #[trigger] r2[i]) && s2[k] == r2[i].advance_spec();
            assert(r2.contains(r2[i]));
            assert(r1.contains(r2[i]));
            let j = choose|j: int| 0 <= j < r1.len() && r1[j] == r2[i];
            lemma_seeds_has(g, r1, by, j);
        }
    }
    if s1.len() > 0 {
        assert(s1.contains(s1[0]));
        assert(s2.contains(s1[0]));
    }
    if s2.len() > 0 {
        assert(s2.contains(s2[0]));
        assert(s1.contains(s2[0]));
    }
}

/// The seeds chosen from a row without duplicates and with valid items are
/// valid items of the next row, none of them twice.
pub proof fn lemma_seeds_ok(g: CGrammar, row: Seq<Item>, by: SeedBy, k: nat)
    requires
        g.wf(),
        row.no_duplicates(),
        k >= 1,
        forall|i: int| 0 <= i < row.len() ==> item_valid(g, (k - 1) as nat, #[trigger] row[i]),
    ensures
        seeds_of(g, row, by).no_duplicates(),
        forall|i: int|
            0 <= i < seeds_of(g, row, by).len() ==> item_valid(g, k, #[trigger] seeds_of(g, row, by)[i]),
    decreases row.len(),
{
    let seeds = seeds_of(g, row, by);
    if row.len() > 0 {
        let front = row.drop_last();
        assert forall|i: int| 0 <= i < front.len() implies item_valid(
            g,
            (k - 1) as nat,
            #[trigger] front[i],
        ) by {
            assert(front[i] == row[i]);
        }
        assert(front.no_duplicates()) by {
            assert forall|i: int, j: int| 0 <= i < front.len() && 0 <= j < front.len() && i
                != j implies front[i] != front[j] by {
                assert(front[i] == row[i] && front[j] == row[j]);
            }
        }
        lemma_seeds_ok(g, front, by, k);
        let rest = seeds_of(g, front, by);
        if seed_pred(g, by, row.last()) {
            let it = row.last();
            lemma_seed_pred_open(g, by, it);
            assert(item_valid(g, (k - 1) as nat, row[row.len() - 1]));
            assert(g.rule_wf(it.rule_spec()));
            Item::lemma_advance(it);
            assert forall|a: int| 0 <= a < rest.len() implies rest[a] != it.advance_spec() by {
                lemma_seeds_from(g, front, by, a);
                let i = choose|i: int|
                    0 <= i < front.len() && seed_pred(g, by, #[trigger] front[i]) && rest[a]
                        == front[i].advance_spec();
                assert(front[i] == row[i]);
                assert(row[i] != row[row.len() - 1]);
                if front[i].advance_spec() == it.advance_spec() {
                    lemma_seed_pred_open(g, by, front[i]);
                    assert(item_valid(g, (k - 1) as nat, row[i]));
                    assert(g.rule_wf(front[i].rule_spec()));
                    Item::lemma_advance(front[i]);
                    Item::lemma_identity(front[i], it);
                }
            }
            assert forall|i: int, j: int| 0 <= i < seeds.len() && 0 <= j < seeds.len() && i
                != j implies seeds[i] != seeds[j] by {}
        }
    }
}

impl Parser {
    /// Fewer rows of well-formed rows are well-formed.
    pub(crate) proof fn lemma_rows_wf_fewer(&self, n: nat, m: nat)
        requires
            self.rows_wf_n(m),
            n <= m,
        ensures
            self.rows_wf_n(n),
    {
        let big = rows_view(self.rows@, self.scratch.items@, m);
        let small = rows_view(self.rows@, self.scratch.items@, n);
        assert forall|i: int, j: int| 0 <= i < small.len() && 0 <= j < small[i].len() implies item_valid(
            *self.grammar,
            i as nat,
            #[trigger] small[i][j],
        ) by {
            assert(small[i] == big[i]);
            assert(item_valid(*self.grammar, i as nat, big[i][j]));
        }
    }

    /// Rows stay well-formed when the item array changes only at or after
    /// the end of the last of them, and the row slots themselves do not change.
    pub(crate) proof fn lemma_rows_wf_stable(&self, old: &Parser, n: nat, limit: nat)
        requires
            old.rows_wf_n(n),
            self.grammar == old.grammar,
            n <= self.rows@.len(),
            forall|i: int| 0 <= i < n ==> #[trigger] self.rows@[i] == old.rows@[i],
            forall|i: int| 0 <= i < n ==> (#[trigger] old.rows@[i]).last_item <= limit,
            limit <= old.scratch.items@.len(),
            limit <= self.scratch.items@.len(),
            self.scratch.items@.take(limit as int) == old.scratch.items@.take(limit as int),
        ensures
            self.rows_wf_n(n),
            forall|i: int| 0 <= i < n ==> #[trigger] self.row_items(i) == old.row_items(i),
            rows_view(self.rows@, self.scratch.items@, n) == rows_view(old.rows@, old.scratch.items@, n),
    {
        assert(rows_fit(old.rows@, n, limit));
        lemma_rows_view_stable(old.rows@, old.scratch.items@, self.scratch.items@, n, limit);
        let a = rows_view(old.rows@, old.scratch.items@, n);
        let b = rows_view(old.rows@, self.scratch.items@, n);
        let c = rows_view(self.rows@, self.scratch.items@, n);
        assert(b =~= c);
        assert forall|i: int| 0 <= i < n implies #[trigger] self.row_items(i) == old.row_items(i) by {
            assert(a[i] == old.row_items(i));
            assert(c[i] == self.row_items(i));
        }
        assert forall|i: int, j: int| 0 <= i <= j < n implies (#[trigger] self.rows@[i]).last_item <= (
        #[trigger] self.rows@[j]).last_item by {
            assert(old.rows@[i].last_item <= old.rows@[j].last_item);
        }
        assert forall|i: int| 0 <= i < n implies (#[trigger] self.row_items(i)).no_duplicates() by {
            assert(old.row_items(i).no_duplicates());
        }
    }

    /// While a row is built, the rows before it are the live rows.
    pub(crate) proof fn lemma_building_ctx(&self, curr_idx: nat)
        requires
            self.wf(),
            self.building(curr_idx),
        ensures
            build_ctx(*self.grammar, self.rows@, self.scratch, curr_idx),
            prev_of(self.rows@, self.scratch, curr_idx) == self.live_rows(),
    {
        assert(rows_fit(self.rows@, curr_idx, self.scratch.row_start_spec())) by {
            assert forall|i: int| 0 <= i < curr_idx implies (#[trigger] self.rows@[i]).first_item
                <= self.rows@[i].last_item <= self.scratch.row_start_spec() by {
                assert(self.rows@[i].last_item <= self.rows@[curr_idx - 1].last_item);
            }
        }
        assert(prev_of(self.rows@, self.scratch, curr_idx) =~= self.live_rows());
    }

    /// Closes the row under construction and, where it holds an item, makes
    /// it row `curr_idx`. The agenda begins at slot `agenda_ptr`; the items
    /// before it stay in the row without being handled. Returns false, and
    /// makes no row, where the row is empty.
    pub(crate) fn push_row(&mut self, curr_idx: usize, agenda_ptr: usize, lexeme: &Lexeme) -> (r: bool)
        requires
            old(self).wf(),
            old(self).building(curr_idx as nat),
            old(self).scratch.row_start <= agenda_ptr <= old(self).scratch.row_end,
            old(self).definitive() ==> lexeme.wf(),
        ensures
            final(self).wf(),
            row_grows(old(self).scratch, final(self).scratch),
            final(self).pushed_row(
                old(self),
                old(self).work_row(),
                agenda_ptr - old(self).scratch.row_start,
                lexeme.visible_bytes_spec(),
                lexeme.hidden_bytes_spec(),
                r,
            ),
    {
        proof {
            self.lemma_building_ctx(curr_idx as nat);
        }
        let (mut allowed_lexemes, budgets) = close_row(
            &mut self.scratch,
            &*self.grammar,
            &self.rows,
            &self.row_infos,
            &mut self.captures,
            curr_idx,
            agenda_ptr,
            lexeme,
        );
        let row_len = self.scratch.row_len();
        self.stats.rows = self.stats.rows.wrapping_add(1);
        let ghost n = curr_idx as nat;
        let ghost limit = self.scratch.row_start_spec();
        let ghost mid = *self;
        proof {
            assert(self.scratch.items@.take(limit as int) == old(self).scratch.items@.take(limit as int));
            assert forall|i: int| 0 <= i < n implies (#[trigger] old(self).rows@[i]).last_item <= limit by {
                assert(old(self).rows@[i].last_item <= old(self).rows@[n - 1].last_item);
            }
            self.lemma_rows_wf_stable(old(self), n, limit);
            assert(self.stack_wf());
            assert(self.infos_wf());
            assert(self.wf());
        }
        if row_len == 0 {
            false
        } else {
            self.stats.all_items = self.stats.all_items.wrapping_add(row_len);
            allowed_lexemes.set(LexemeIdx::skip().as_usize(), true);
            let idx = curr_idx;
            let row = self.scratch.work_row(allowed_lexemes);
            if self.rows.len() == idx {
                self.rows.push(row);
            } else {
                self.rows[idx] = row;
            }
            let ghost budget_view = budgets@;
            if self.scratch.definitive {
                if self.row_infos.len() > idx {
                    self.row_infos.truncate(idx);
                }
                self.row_infos.push(
                    RowInfo {
                        lexeme: Lexeme::bogus(),
                        token_idx_start: self.token_idx,
                        token_idx_stop: self.token_idx,
                        start_byte_idx: self.byte_idx,
                        max_tokens: budgets,
                    },
                );
            }
            proof {
                let g = *self.grammar;
                self.lemma_rows_wf_stable(&mid, n, limit);
                assert(self.row_items(n as int) == self.scratch.row_view());
                let rv = rows_view(self.rows@, self.scratch.items@, n + 1);
                let rv0 = rows_view(self.rows@, self.scratch.items@, n);
                assert forall|i: int, j: int| 0 <= i < rv.len() && 0 <= j < rv[i].len() implies item_valid(
                    g,
                    i as nat,
                    #[trigger] rv[i][j],
                ) by {
                    if i < n {
                        assert(rv[i] == rv0[i]);
                        assert(item_valid(g, i as nat, rv0[i][j]));
                    } else {
                        assert(rv[i] == self.scratch.row_view());
                        assert(item_valid(g, n, self.scratch.row_view()[j]));
                    }
                }
                assert forall|i: int, j: int| 0 <= i <= j < n + 1 implies (#[trigger] self.rows@[i]).last_item
                    <= (#[trigger] self.rows@[j]).last_item by {
                    if j < n {
                        assert(mid.rows@[i].last_item <= mid.rows@[j].last_item);
                    } else if i < n {
                        assert(mid.rows@[i].last_item <= limit);
                    }
                }
                assert forall|i: int| 0 <= i < n + 1 implies (#[trigger] self.row_items(i)).no_duplicates() by {
                    if i < n {
                        assert(self.row_items(i) == mid.row_items(i));
                    }
                }
                assert(self.rows_wf_n(n + 1));
                assert(self.stack_wf());
                assert(self.infos_wf()) by {
                    if self.scratch.definitive {
                        assert forall|i: int| 0 <= i < self.row_infos@.len() implies (
                        #[trigger] self.row_infos@[i]).lexeme.wf() by {
                            if i < n {
                                assert(self.row_infos@[i] == old(self).row_infos@[i]);
                            }
                        }
                        assert forall|i: int| 0 <= i < self.row_infos@.len() implies (
                        #[trigger] self.rows@[i]).last_item <= self.scratch.item_props@.len() by {
                            if i < n {
                                assert(mid.rows@[i].last_item <= mid.scratch.item_props@.len());
                            }
                        }
                    }
                }
                if self.scratch.definitive {
                    assert(self.infos().take(curr_idx as int) =~= old(self).infos().take(curr_idx as int));
                }
            }
            true
        }
    }

    /// What holds of everything but the scratch space while the seeds of a
    /// row are put down.
    pub(crate) open spec fn seeding(&self, old: &Parser) -> bool {
        &&& self.same_frame(old)
        &&& self.rows == old.rows
        &&& self.row_infos == old.row_infos
        &&& self.captures == old.captures
        &&& self.stats == old.stats
        &&& self.scratch.definitive == old.scratch.definitive
        &&& self.scratch.item_props@.len() >= old.scratch.item_props@.len()
        &&& self.scratch.items@.len() >= old.scratch.items@.len()
    }

    /// Once the seeds are down after the last live row, the parser is
    /// well-formed and ready to build the next row.
    pub(crate) proof fn lemma_seeded(&self, old: &Parser, seeds: Seq<Item>)
        requires
            old.wf(),
            self.seeding(old),
            self.scratch.wf(),
            self.scratch.row_start == old.rows@[old.num_rows_spec() - 1].last_item,
            self.scratch.before_row() == old.scratch.items@.take(self.scratch.row_start as int),
            self.scratch.row_view() == seeds,
            seeds.no_duplicates(),
            forall|i: int|
                0 <= i < seeds.len() ==> item_valid(*old.grammar, old.num_rows_spec(), #[trigger] seeds[i]),
        ensures
            self.wf(),
            self.building(old.num_rows_spec()),
            self.live_rows() == old.live_rows(),
            self.same_rows(old, old.num_rows_spec()),
            self.infos() == old.infos(),
            self.captures_view() == old.captures_view(),
            self.num_rows_spec() == old.num_rows_spec(),
    {
        let n = old.num_rows_spec();
        let limit = self.scratch.row_start as nat;
        assert forall|i: int| 0 <= i < n implies (#[trigger] old.rows@[i]).last_item <= limit by {
            assert(old.rows@[i].last_item <= old.rows@[n - 1].last_item);
        }
        self.lemma_rows_wf_stable(old, n, limit);
        assert(self.stack_wf());
        assert(self.infos_wf());
        assert(self.live_rows() =~= old.live_rows());
    }

    /// Whether the item `it` waits for what `by` names.
    fn chosen(&self, it: Item, by: &SeedBy) -> (r: bool)
        requires
            self.grammar_view().wf(),
            self.grammar_view().valid_rule(it.rule_spec()),
        ensures
            r == seed_pred(self.grammar_view(), *by, it),
    {
        proof {
            assert(self.grammar_view().rule_wf(it.rule_spec()));
        }
        match by {
            SeedBy::Lexeme(lx) => {
                let sym = self.grammar.sym_data_dot(it.rule_idx());
                match sym.lexeme {
                    Some(l) => l == *lx,
                    None => false,
                }
            },
            SeedBy::Symbol(sym) => !sym.is_null() && self.grammar.sym_idx_dot(it.rule_idx()) == *sym,
            SeedBy::Variable(mv) => {
                let sym = self.grammar.sym_data_dot(it.rule_idx());
                match &sym.props.model_variable {
                    Some(mv2) => mv.same(mv2),
                    None => false,
                }
            },
        }
    }

    /// Starts a new row after the current one and puts down its seeds: the
    /// items of the current row that `by` chooses, with their dots moved on.
    pub(crate) fn seed_row(&mut self, by: &SeedBy)
        requires
            old(self).wf(),
        ensures
            final(self).wf(),
            final(self).building(old(self).num_rows_spec()),
            final(self).seeding(old(self)),
            final(self).live_rows() == old(self).live_rows(),
            final(self).same_rows(old(self), old(self).num_rows_spec()),
            final(self).infos() == old(self).infos(),
            final(self).captures_view() == old(self).captures_view(),
            final(self).num_rows_spec() == old(self).num_rows_spec(),
            final(self).work_row() == seeds_of(
                old(self).grammar_view(),
                old(self).row_items(old(self).num_rows_spec() - 1),
                *by,
            ),
            final(self).scratch.row_start + final(self).work_row().len() == final(self).scratch.row_end,
    {
        let row_idx = self.num_rows() - 1;
        let last = self.rows[row_idx].last_item;
        let first = self.rows[row_idx].first_item;
        let mut i: usize = first;
        let n = last - i;
        self.scratch.ensure_items(last.saturating_add(n).saturating_add(100));
        self.scratch.new_row(last);
        let ghost g = self.grammar_view();
        let ghost cur = old(self).row_items(row_idx as int);
        proof {
            assert(cur.take(0) =~= Seq::<Item>::empty());
            assert(self.scratch.row_view() =~= Seq::<Item>::empty());
        }
        while i < last
            invariant
                first <= i <= last,
                old(self).wf(),
                row_idx == old(self).num_rows_spec() - 1,
                first == old(self).rows@[row_idx as int].first_item,
                last == old(self).rows@[row_idx as int].last_item,
                self.seeding(old(self)),
                g == self.grammar_view(),
                cur == old(self).row_items(row_idx as int),
                self.scratch.wf(),
                self.scratch.row_start == last,
                self.scratch.before_row() == old(self).scratch.items@.take(last as int),
                self.scratch.row_view() == seeds_of(g, cur.take(i - first), *by),
            decreases last - i,
        {
            let item = self.scratch.item_at(i);
            proof {
                assert(self.scratch.before_row()[i as int] == item);
                assert(cur[i - first] == item);
                assert(cur.take(i + 1 - first).drop_last() =~= cur.take(i - first));
                assert(cur.take(i + 1 - first).last() == item);
                let rv = rows_view(old(self).rows@, old(self).scratch.items@, old(self).num_rows_spec());
                assert(rv[row_idx as int] == cur);
                assert(item_valid(g, row_idx as nat, rv[row_idx as int][i - first]));
                assert(g.rule_wf(item.rule_spec()));
            }
            if self.chosen(item, by) {
                proof {
                    lemma_seed_pred_open(g, *by, item);
                }
                self.scratch.just_add(item.advance_dot(), i);
            }
            i += 1;
        }
        proof {
            assert(cur.take(last - first) =~= cur);
            let seeds = seeds_of(g, cur, *by);
            let rv = rows_view(old(self).rows@, old(self).scratch.items@, old(self).num_rows_spec());
            assert(rv[row_idx as int] == cur);
            assert forall|k: int| 0 <= k < cur.len() implies item_valid(
                g,
                row_idx as nat,
                #[trigger] cur[k],
            ) by {
                assert(item_valid(g, row_idx as nat, rv[row_idx as int][k]));
            }
            lemma_seeds_ok(g, cur, *by, old(self).num_rows_spec());
            self.lemma_seeded(old(self), seeds);
        }
    }

    /// After a row was seeded and pushed, the rows of before the seeding are
    /// still there.
    pub(crate) proof fn lemma_pushed_after_seeding(
        &self,
        mid: &Parser,
        old: &Parser,
        seeds: Seq<Item>,
        from: int,
        visible: Seq<u8>,
        hidden: Seq<u8>,
        r: bool,
    )
        requires
            old.wf(),
            mid.seeding(old),
            mid.live_rows() == old.live_rows(),
            mid.same_rows(old, old.num_rows_spec()),
            mid.infos() == old.infos(),
            mid.captures_view() == old.captures_view(),
            mid.num_rows_spec() == old.num_rows_spec(),
            self.pushed_row(mid, seeds, from, visible, hidden, r),
        ensures
            self.pushed_row(old, seeds, from, visible, hidden, r),
    {
        let n = old.num_rows_spec();
        assert(self.same_rows(old, n)) by {
            assert forall|k: int| 0 <= k < n implies #[trigger] self.rows@[k] == old.rows@[k] by {
                assert(self.rows@[k] == mid.rows@[k]);
            }
            assert forall|k: int| 0 <= k < n implies #[trigger] self.row_items(k) == old.row_items(k) by {
                assert(self.row_items(k) == mid.row_items(k));
            }
        }
    }

    /// Making a row leaves alone the grammar, the lexer, the mode and the
    /// counters of tokens and bytes, the lexer stack, and the rows that were
    /// live.
    pub proof fn lemma_pushed_row_keeps(
        &self,
        old: &Parser,
        seeds: Seq<Item>,
        from: int,
        visible: Seq<u8>,
        hidden: Seq<u8>,
        r: bool,
    )
        requires
            old.wf(),
            self.pushed_row(old, seeds, from, visible, hidden, r),
        ensures
            self.frame_kept(old),
            self.stack() == old.stack(),
            self.rows_kept(old, old.num_rows_spec()),
            self.num_rows_spec() == old.num_rows_spec(),
            self.rows_len() >= old.rows_len(),
            !old.definitive() ==> self.infos() == old.infos() && self.captures_view() == old.captures_view(),
            !r ==> self.infos() == old.infos(),
    {
        let n = old.num_rows_spec();
        assert forall|i: int| 0 <= i < n implies #[trigger] self.row_items(i) == old.row_items(i)
            && self.row_allowed(i) == old.row_allowed(i) by {
            assert(self.rows@[i] == old.rows@[i]);
        }
    }

    /// Scans `lexeme`: every item of the current row that waits for the
    /// lexeme's class is put into a new row with its dot moved over the
    /// terminal, and the new row is closed. Returns false where no item waits
    /// for the class.
    pub fn scan(&mut self, lexeme: &Lexeme) -> (r: bool)
        requires
            old(self).wf(),
            old(self).definitive() ==> lexeme.wf(),
        ensures
            final(self).wf(),
            final(self).pushed_row(
                old(self),
                scan_seeds(
                    old(self).grammar_view(),
                    old(self).row_items(old(self).num_rows_spec() - 1),
                    lexeme.idx,
                ),
                0,
                lexeme.visible_bytes_spec(),
                lexeme.hidden_bytes_spec(),
                r,
            ),
            final(self).frame_kept(old(self)),
            final(self).stack() == old(self).stack(),
            final(self).rows_kept(old(self), old(self).num_rows_spec()),
    {
        self.seed_row(&SeedBy::Lexeme(lexeme.idx));
        let ghost mid = *self;
        let r = self.push_row(self.num_rows(), self.scratch.row_start, lexeme);
        proof {
            self.lemma_pushed_after_seeding(
                &mid,
                old(self),
                mid.work_row(),
                0,
                lexeme.visible_bytes_spec(),
                lexeme.hidden_bytes_spec(),
                r,
            );
            self.lemma_pushed_row_keeps(
                old(self),
                scan_seeds(
                    old(self).grammar_view(),
                    old(self).row_items(old(self).num_rows_spec() - 1),
                    lexeme.idx,
                ),
                0,
                lexeme.visible_bytes_spec(),
                lexeme.hidden_bytes_spec(),
                r,
            );
        }
        r
    }

    /// Scans a lexeme of the skip class: the current row is copied as it is,
    /// dots unmoved, into a new row that allows the same lexeme classes.
    /// Returns false where the current row is empty.
    pub(crate) fn scan_skip_lexeme(&mut self, lexeme: &Lexeme) -> (r: bool)
        requires
            old(self).wf(),
            old(self).definitive() ==> lexeme.wf(),
        ensures
            final(self).wf(),
            final(self).skipped_row(old(self), r),
    {
        let row_idx = self.num_rows() - 1;
        let first = self.rows[row_idx].first_item;
        let last = self.rows[row_idx].last_item;
        let allowed_lexemes = self.rows[row_idx].allowed_lexemes.copy();
        let n = last - first;
        if n == 0 {
            proof {
                assert(self.same_rows(old(self), old(self).num_rows_spec()));
            }
            return false;
        }
        self.scratch.ensure_items(last.saturating_add(n).saturating_add(100));
        self.scratch.new_row(last);
        let ghost g = self.grammar_view();
        let ghost cur = old(self).row_items(row_idx as int);
        let mut i: usize = first;
        proof {
            assert(cur.take(0) =~= Seq::<Item>::empty());
            assert(self.scratch.row_view() =~= Seq::<Item>::empty());
        }
        while i < last
            invariant
                first <= i <= last,
                old(self).wf(),
                row_idx == old(self).num_rows_spec() - 1,
                first == old(self).rows@[row_idx as int].first_item,
                last == old(self).rows@[row_idx as int].last_item,
                self.seeding(old(self)),
                cur == old(self).row_items(row_idx as int),
                self.scratch.wf(),
                self.scratch.row_start == last,
                self.scratch.row_end == last + (i - first),
                self.scratch.before_row() == old(self).scratch.items@.take(last as int),
                self.scratch.row_view() == cur.take(i - first),
            decreases last - i,
        {
            let item = self.scratch.item_at(i);
            proof {
                assert(self.scratch.before_row()[i as int] == item);
                assert(cur[i - first] == item);
                assert(cur.take(i + 1 - first) =~= cur.take(i - first).push(item));
            }
            self.scratch.just_add(item, i);
            i += 1;
        }
        proof {
            assert(cur.take(last - first) =~= cur);
            let rv = rows_view(old(self).rows@, old(self).scratch.items@, old(self).num_rows_spec());
            assert(rv[row_idx as int] == cur);
            assert forall|k: int| 0 <= k < cur.len() implies item_valid(
                g,
                old(self).num_rows_spec(),
                #[trigger] cur[k],
            ) by {
                assert(item_valid(g, row_idx as nat, rv[row_idx as int][k]));
            }
            assert(old(self).row_items(row_idx as int).no_duplicates());
            self.lemma_seeded(old(self), cur);
        }
        let ghost mid = *self;
        // The agenda begins at the row's end: no item is handled, the row
        // is only made.
        let push_res = self.push_row(row_idx + 1, self.scratch.row_end, lexeme);
        let added_row_idx = row_idx + 1;
        proof {
            self.lemma_pushed_after_seeding(
                &mid,
                old(self),
                cur,
                cur.len() as int,
                lexeme.visible_bytes_spec(),
                lexeme.hidden_bytes_spec(),
                push_res,
            );
            assert(push_res);
            assert(self.work_row().skip(cur.len() as int) =~= Seq::<Item>::empty());
        }
        let ghost pushed = *self;
        self.rows[added_row_idx].allowed_lexemes = allowed_lexemes;
        if self.scratch.definitive {
            let budgets = copy_budgets(&self.row_infos[added_row_idx - 1].max_tokens);
            self.row_infos[added_row_idx].max_tokens = budgets;
        }
        proof {
            let n = old(self).num_rows_spec();
            assert forall|k: int| 0 <= k < n + 1 implies #[trigger] self.row_items(k) == pushed.row_items(
                k,
            ) by {}
            assert(self.rows_wf_n(n + 1)) by {
                assert forall|k: int, j: int| 0 <= k <= j < n + 1 implies (#[trigger] self.rows@[k]).last_item
                    <= (#[trigger] self.rows@[j]).last_item by {
                    assert(pushed.rows@[k].last_item <= pushed.rows@[j].last_item);
                }
                assert forall|k: int| 0 <= k < n + 1 implies (#[trigger] self.row_items(k)).no_duplicates() by {
                    assert(pushed.row_items(k).no_duplicates());
                }
                assert(rows_view(self.rows@, self.scratch.items@, n + 1) =~= rows_view(
                    pushed.rows@,
                    pushed.scratch.items@,
                    n + 1,
                ));
            }
            self.lemma_rows_wf_fewer(n, n + 1);
            assert(self.stack_wf());
            assert(self.infos_wf()) by {
                assert forall|k: int| 0 <= k < self.row_infos@.len() implies (
                #[trigger] self.row_infos@[k]).lexeme.wf() by {
                    assert(pushed.row_infos@[k].lexeme.wf());
                }
                if self.scratch.definitive {
                    assert forall|k: int| 0 <= k < self.row_infos@.len() implies (
                    #[trigger] self.rows@[k]).last_item <= self.scratch.item_props@.len() by {
                        assert(pushed.rows@[k].last_item <= pushed.scratch.item_props@.len());
                    }
                }
                assert forall|k: int| 0 <= k < self.row_infos@.len() implies (
                #[trigger] self.rows@[k]).first_item <= self.rows@[k].last_item
                    <= self.scratch.items@.len() by {
                    assert(pushed.rows@[k].first_item <= pushed.rows@[k].last_item);
                }
            }
            assert(self.same_rows(old(self), n)) by {
                assert forall|k: int| 0 <= k < n implies #[trigger] self.rows@[k] == old(self).rows@[k] by {
                    assert(pushed.rows@[k] == old(self).rows@[k]);
                }
                assert forall|k: int| 0 <= k < n implies #[trigger] self.row_items(k) == old(self).row_items(k) by {
                    assert(pushed.row_items(k) == old(self).row_items(k));
                }
            }
            if self.scratch.definitive {
                assert(self.infos().take(n as int) =~= old(self).infos().take(n as int)) by {
                    assert(pushed.infos().take(n as int) == old(self).infos().take(n as int));
                    assert forall|k: int| 0 <= k < n implies self.infos()[k] == pushed.infos()[k] by {}
                    assert forall|k: int| 0 <= k < n implies self.infos().take(n as int)[k] == old(self).infos().take(n as int)[k] by {
                        assert(pushed.infos().take(n as int)[k] == pushed.infos()[k]);
                    }
                }
                assert(old(self).infos()[n - 1] == pushed.infos()[n - 1]) by {
                    assert(pushed.infos().take(n as int)[n - 1] == old(self).infos().take(n as int)[n - 1]);
                }
            }
        }
        true
    }
}

/// A copy of a list of token budgets.
fn copy_budgets(list: &Vec<(LexemeIdx, usize)>) -> (r: Vec<(LexemeIdx, usize)>)
    ensures
        r@ == list@,
{
    let mut out: Vec<(LexemeIdx, usize)> = Vec::new();
    let mut i: usize = 0;
    while i < list.len()
        invariant
            i <= list@.len(),
            out@ == list@.take(i as int),
        decreases list@.len() - i,
    {
        out.push(list[i]);
        i += 1;
    }
    assert(list@.take(list@.len() as int) =~= list@);
    out
}

} // verus!
