//! Questions to the parser that it answers by speculation: whether input may
//! end here, and which byte has to come next.

use vstd::prelude::*;
use crate::earley::item::Item;
use crate::earley::lexer::LexerResult;
use crate::earley::parser::LexerState;
use crate::earley::parser::Parser;
use crate::earley::grammar::CSymIdx;
use crate::earley::grammar::GenGrammarOptions;
use crate::earley::grammar::ModelVariable;
use crate::earley::lexerspec::LexemeIdx;
use crate::earley::lexerspec::LexemeSet;
use crate::earley::parser::RowInfo;
use crate::earley::parser::step::accepts_row;
use crate::earley::parser::step::gen_choice;
use crate::earley::parser::step::gen_rivals;
use crate::earley::parser::step::has_var;
use crate::earley::parser::step::indices_upto;
use crate::earley::parser::step::row_text;
use crate::earley::parser::step::text_upto;
use crate::earley::parser::step::vars_of;
use crate::earley::parser::step::wants_progress;

verus! {

impl Parser {
    /// Ends the pending lexeme, as if input ended here. Returns true where
    /// that can be done, and where no bytes are pending.
    pub(crate) fn flush_lexer(&mut self) -> (r: bool)
        requires
            old(self).wf(),
        ensures
            final(self).wf(),
            final(self).flushed(old(self), r),
            final(self).flush_counted(old(self), r),
            final(self).counts_kept(old(self)),
    {
        if !self.has_pending_lexeme_bytes() {
            proof {
                assert forall|i: int| #[trigger] self.row_items(i) == old(self).row_items(i) by {}
            }
            return true;
        }
        let curr = self.lexer_state();
        let lex_result = self.lexer.try_lexeme_end(curr.lexer_state);
        self.advance_lexer_or_parser(lex_result, curr)
    }

    /// Whether the current row holds a completed rule of the start symbol.
    pub(crate) fn row_is_accepting(&self) -> (r: bool)
        requires
            self.wf(),
        ensures
            r == accepts_row(self.grammar_view(), self.curr_items()),
    {
        let row_idx = self.num_rows() - 1;
        let first = self.rows[row_idx].first_item;
        let last = self.rows[row_idx].last_item;
        let ghost row = self.curr_items();
        let ghost g = self.grammar_view();
        let start = self.grammar.start();
        let mut i: usize = first;
        while i < last
            invariant
                first <= i <= last,
                self.wf(),
                row_idx == self.num_rows_spec() - 1,
                first == self.rows@[row_idx as int].first_item,
                last == self.rows@[row_idx as int].last_item,
                row == self.curr_items(),
                g == self.grammar_view(),
                start == g.start_spec(),
                forall|k: int|
                    0 <= k < i - first ==> !(g.is_complete((#[trigger] row[k]).rule_spec())
                        && g.lhs_spec(row[k].rule_spec()) == start),
            decreases last - i,
        {
            let item = self.scratch.item_at(i);
            proof {
                assert(row[i - first] == item);
                self.lemma_live_item_valid(row_idx as int, i - first);
            }
            let pos = item.rule_idx();
            let after_dot = self.grammar.sym_idx_dot(pos);
            if after_dot.is_null() {
                let lhs = self.grammar.sym_idx_lhs(pos);
                if lhs == start {
                    return true;
                }
            }
            i += 1;
        }
        false
    }

    /// Whether input may end here: the pending lexeme, if there is one, can
    /// be ended, and the row that is reached then holds a completed rule of
    /// the start symbol. Found by speculation; the committed state is as
    /// before.
    pub fn is_accepting(&mut self) -> (r: bool)
        requires
            old(self).wf(),
            old(self).committed(),
        ensures
            final(self).wf(),
            final(self).restored(old(self)),
            final(self).pending_gen_grammar() == old(self).pending_gen_grammar(),
            final(self).gen_grammar_accepting() == old(self).gen_grammar_accepting(),
            final(self).counts_kept(old(self)),
            r == old(self).may_end(),
            exists|trial: Parser, end: Parser, flushed: bool| #[trigger]
                final(self).ended_in_trial(old(self), &trial, &end, flushed),
    {
        self.trie_started_inner();
        let ghost trial = *self;
        let flushed = self.flush_lexer();
        let ghost end = *self;
        let r = flushed && self.row_is_accepting();
        proof {
            Self::lemma_flush_speculates(end, trial, *old(self), flushed);
            Self::lemma_may_end(*old(self), trial, end, flushed);
        }
        self.trie_finished_inner();
        proof {
            assert(self.ended_in_trial(old(self), &trial, &end, flushed));
        }
        r
    }

    /// A copy of the lexer stack.
    pub(crate) fn copy_stack(&self) -> (r: Vec<LexerState>)
        ensures
            r@ == self.stack(),
    {
        let mut r: Vec<LexerState> = Vec::new();
        let mut i: usize = 0;
        while i < self.lexer_stack.len()
            invariant
                i <= self.lexer_stack@.len(),
                r@ == self.lexer_stack@.take(i as int),
            decreases self.lexer_stack@.len() - i,
        {
            r.push(self.lexer_stack[i]);
            proof {
                assert(r@ =~= self.lexer_stack@.take(i + 1));
            }
            i += 1;
        }
        proof {
            assert(self.lexer_stack@.take(self.lexer_stack@.len() as int) =~= self.lexer_stack@);
        }
        r
    }

    /// Puts the lexer stack of a speculation back to `saved`, the stack that
    /// `trial` had when the speculation began. The rows that were made since
    /// stay where they are, behind the live rows.
    pub(crate) fn restack_to(&mut self, saved: &Vec<LexerState>, Ghost(trial): Ghost<Parser>)
        requires
            old(self).wf(),
            trial.wf(),
            !old(self).definitive(),
            saved@ == trial.stack(),
            old(self).lexer == trial.lexer,
            trial.num_rows_spec() <= old(self).num_rows_spec(),
        ensures
            final(self).wf(),
            final(self).restacked(old(self)),
            final(self).stats == old(self).stats,
            final(self).stack() == saved@,
    {
        self.lexer_stack.truncate(0);
        let mut i: usize = 0;
        while i < saved.len()
            invariant
                i <= saved@.len(),
                self.restacked(old(self)),
                self.stats == old(self).stats,
                self.lexer_stack@ == saved@.take(i as int),
            decreases saved@.len() - i,
        {
            self.lexer_stack.push(saved[i]);
            proof {
                assert(self.lexer_stack@ =~= saved@.take(i + 1));
            }
            i += 1;
        }
        proof {
            assert(saved@.take(saved@.len() as int) =~= saved@);
            assert forall|a: int| #[trigger] self.row_items(a) == old(self).row_items(a) by {}
            old(self).lemma_rows_wf_fewer(trial.num_rows_spec(), old(self).num_rows_spec());
            assert(self.rows_wf_n(trial.num_rows_spec())) by {
                assert(old(self).rows_wf_n(trial.num_rows_spec()));
            }
            assert(trial.stack_wf());
            assert(self.stack_wf());
            assert(self.infos_wf()) by {
                assert(old(self).infos_wf());
            }
        }
    }

    /// Tries the byte `b` at the start of a speculation and takes it back
    /// with everything that it replaced on the lexer stack.
    pub(crate) fn probe_byte(
        &mut self,
        b: u8,
        saved: &Vec<LexerState>,
        Ghost(trial): Ghost<Parser>,
        Ghost(checked): Ghost<Parser>,
    ) -> (accepted: bool)
        requires
            old(self).begins_at(&checked),
            trial.begins_at(&checked),
            checked.wf(),
            saved@ == trial.stack(),
            old(self).lexer == trial.lexer,
        ensures
            final(self).begins_at(&checked),
            final(self).lexer == trial.lexer,
            final(self).pending_gen_grammar() == old(self).pending_gen_grammar(),
            final(self).gen_grammar_accepting() == old(self).gen_grammar_accepting(),
            final(self).stats_view().definitive_bytes == old(self).stats_view().definitive_bytes,
            accepted == checked.byte_accepted(b),
    {
        let ghost before = *self;
        let accepted = self.try_push_byte(b);
        let ghost pushed = *self;
        proof {
            Self::lemma_push_effect(pushed, before, before.lexed(Some(b)), accepted);
            Self::lemma_byte_accepted(checked, before, pushed, b, accepted);
            before.lemma_base_row(&checked);
            trial.lemma_base_row(&checked);
            assert forall|i: int| 0 <= i < checked.num_rows_spec() implies #[trigger] pushed.row_items(i)
                == checked.row_items(i) && pushed.row_allowed(i) == checked.row_allowed(i) by {
                assert(pushed.row_items(i) == before.row_items(i));
                assert(before.row_items(i) == checked.row_items(i));
            }
        }
        if accepted {
            self.restack_to(saved, Ghost(trial));
            proof {
                assert(self.stack().take(self.trie_base() as int) =~= checked.stack());
                assert forall|i: int| 0 <= i < checked.num_rows_spec() implies #[trigger] self.row_items(i)
                    == checked.row_items(i) && self.row_allowed(i) == checked.row_allowed(i) by {
                    assert(self.row_items(i) == pushed.row_items(i));
                }
            }
        }
        accepted
    }

    /// What a speculation that ended the pending lexeme left behind: `trial`
    /// is the parser when the speculation began, `end` the parser after the
    /// pending lexeme was ended, and `self` has the counters and the row
    /// slots of `end`.
    pub open spec fn ended_in_trial(&self, old: &Parser, trial: &Parser, end: &Parser, flushed: bool) -> bool {
        &&& trial.begins_at(old)
        &&& trial.stats_view() == old.stats_view()
        &&& trial.rows_len() == old.rows_len()
        &&& end.wf()
        &&& end.flushed(trial, flushed)
        &&& end.flush_counted(trial, flushed)
        &&& self.stats_view() == end.stats_view()
        &&& self.rows_len() == end.rows_len()
    }

    /// The one byte that can follow, if input may not end here and exactly
    /// one byte can follow. Found by speculation: every byte is tried on its
    /// own, from the state in which the speculation began. The committed
    /// state is as before.
    pub fn forced_byte(&mut self) -> (r: Option<u8>)
        requires
            old(self).wf(),
            old(self).committed(),
        ensures
            final(self).wf(),
            final(self).restored(old(self)),
            final(self).pending_gen_grammar() == old(self).pending_gen_grammar(),
            final(self).gen_grammar_accepting() == old(self).gen_grammar_accepting(),
            final(self).stats_view().definitive_bytes == old(self).stats_view().definitive_bytes,
            r matches Some(b) ==> old(self).forced(b),
            r is None ==> forall|b: u8| !#[trigger] old(self).forced(b),
    {
        if self.is_accepting() {
            // Nothing is forced where input may end.
            proof {
                assert forall|b: u8| !#[trigger] old(self).forced(b) by {}
            }
            return None;
        }
        let ghost checked = *self;
        proof {
            Self::lemma_restored_same(checked, *old(self));
        }
        self.trie_started_inner();
        let ghost trial = *self;
        let saved = self.copy_stack();
        let mut byte_sym: Option<u8> = None;
        let mut multiple = false;
        let mut b: usize = 0;
        while b <= 255 && !multiple
            invariant
                b <= 256,
                self.wf(),
                trial.wf(),
                checked.wf(),
                checked.committed(),
                self.begins_at(&checked),
                trial.begins_at(&checked),
                saved@ == trial.stack(),
                self.lexer == trial.lexer,
                self.pending_gen_grammar() == checked.pending_gen_grammar(),
                self.gen_grammar_accepting() == checked.gen_grammar_accepting(),
                self.stats_view().definitive_bytes == checked.stats_view().definitive_bytes,
                !checked.may_end(),
                !multiple ==> forall|c: u8|
                    (c as int) < b && Some(c) != byte_sym ==> !#[trigger] checked.byte_accepted(c),
                byte_sym matches Some(x) ==> checked.byte_accepted(x),
                byte_sym matches Some(x) ==> (x as int) < b,
                multiple ==> exists|c1: u8, c2: u8|
                    c1 != c2 && #[trigger] checked.byte_accepted(c1) && #[trigger] checked.byte_accepted(
                        c2,
                    ),
            decreases 256 - b + (if multiple { 0nat } else { 1nat }),
        {
            let accepted = self.probe_byte(b as u8, &saved, Ghost(trial), Ghost(checked));
            if accepted {
                if byte_sym.is_some() {
                    // More than one byte can follow.
                    multiple = true;
                    proof {
                        let c1 = byte_sym->0;
                        let c2 = b as u8;
                        assert(c1 != c2);
                        assert(checked.byte_accepted(c1));
                        assert(checked.byte_accepted(c2));
                        assert(exists|c1: u8, c2: u8|
                            c1 != c2 && #[trigger] checked.byte_accepted(c1)
                                && #[trigger] checked.byte_accepted(c2));
                    }
                } else {
                    byte_sym = Some(b as u8);
                }
            }
            b += 1;
        }
        let ghost tried = *self;
        self.trie_finished_inner();
        proof {
            assert(tried.speculates_from(&checked));
            assert(self.restored(&checked));
            assert(checked.num_rows_spec() == old(self).num_rows_spec());
            assert forall|i: int| 0 <= i < old(self).num_rows_spec() implies #[trigger] self.row_items(i)
                == old(self).row_items(i) && self.row_allowed(i) == old(self).row_allowed(i) by {
                assert(self.row_items(i) == checked.row_items(i));
                assert(checked.row_items(i) == old(self).row_items(i));
            }
            assert(self.rows_kept(old(self), old(self).num_rows_spec()));
            assert(self.stack() == old(self).stack());
            assert(self.infos() == old(self).infos());
            assert(self.captures_view() == old(self).captures_view());
            assert(self.committed());
            assert(self.restored(old(self)));
            if multiple {
                let (c1, c2) = choose|c1: u8, c2: u8|
                    c1 != c2 && #[trigger] checked.byte_accepted(c1) && #[trigger] checked.byte_accepted(c2);
                assert forall|x: u8| !#[trigger] checked.forced(x) by {
                    if x != c1 {
                        assert(checked.byte_accepted(c1));
                    } else {
                        assert(checked.byte_accepted(c2));
                    }
                }
            } else {
                match byte_sym {
                    Some(x) => {
                        assert(b == 256);
                        assert forall|c: u8| c != x implies !#[trigger] checked.byte_accepted(c) by {
                            assert((c as int) < b && Some(c) != byte_sym);
                        }
                        assert(checked.forced(x));
                    },
                    None => {
                        assert(b == 256);
                        assert forall|x: u8| !#[trigger] checked.forced(x) by {
                            assert((x as int) < b && Some(x) != byte_sym);
                            assert(!checked.byte_accepted(x));
                        }
                    },
                }
            }
            Self::lemma_restored_same(checked, *old(self));
            if multiple || byte_sym is None {
                assert forall|x: u8| !#[trigger] old(self).forced(x) by {
                    assert(!checked.forced(x));
                    assert(checked.forced(x) == old(self).forced(x));
                }
            } else {
                assert(checked.forced(byte_sym->0) == old(self).forced(byte_sym->0));
            }
        }
        if multiple {
            None
        } else {
            byte_sym
        }
    }

    /// Feeds the parser every byte that is forced, one after the other, for
    /// as long as there is one. Returns the bytes that were fed: each of
    /// them was, at its point, the one byte that could follow where input
    /// could not end, and behind the last of them no byte is forced. With a
    /// lexer that hides no bytes the text has grown by the bytes returned.
    pub fn force_bytes(&mut self) -> (r: Vec<u8>)
        requires
            old(self).wf(),
            old(self).committed(),
        ensures
            final(self).wf(),
            final(self).committed(),
            final(self).grammar_view() == old(self).grammar_view(),
            final(self).lexer_view() == old(self).lexer_view(),
            final(self).stack().len() >= old(self).stack().len() + r@.len(),
            exists|states: Seq<Parser>|
                {
                    &&& #[trigger] Self::forced_run(states, r@)
                    &&& states[0] == *old(self)
                    &&& final(self).restored(&states.last())
                    &&& forall|b: u8| !#[trigger] states.last().forced(b)
                },
            old(self).lexer_view().hides_nothing() ==> final(self).text() == old(self).text() + r@,
    {
        let mut bytes: Vec<u8> = Vec::new();
        let mut go_on = true;
        let ghost mut states: Seq<Parser> = seq![*self];
        proof {
            self.lemma_stack_len();
            assert(old(self).text() + bytes@ =~= old(self).text());
        }
        while go_on
            invariant
                self.wf(),
                self.committed(),
                self.grammar_view() == old(self).grammar_view(),
                self.lexer_view() == old(self).lexer_view(),
                self.stack().len() >= old(self).stack().len() + bytes@.len(),
                self.stack().len() <= usize::MAX,
                Self::forced_run(states, bytes@),
                states.len() >= 1,
                states[0] == *old(self),
                go_on ==> states.last() == *self,
                !go_on ==> self.restored(&states.last()) && forall|b: u8| !#[trigger] states.last().forced(b),
                old(self).lexer_view().hides_nothing() ==> self.text() == old(self).text() + bytes@,
            decreases usize::MAX - self.stack().len() + (if go_on { 1nat } else { 0nat }),
        {
            let ghost here = *self;
            match self.forced_byte() {
                Some(b) => {
                    let ghost at = *self;
                    let fed = self.try_push_byte_definitive(Some(b));
                    proof {
                        Self::lemma_accepted_for_good(here, at, *self, b, fed);
                        Self::lemma_push_effect(*self, at, at.lexed(Some(b)), true);
                        Self::lemma_pushed_committed(*self, at, at.lexed(Some(b)));
                        assert(at.text() == here.text());
                        if old(self).lexer_view().hides_nothing() {
                            at.lexer_view().lemma_hides_nothing(at.top().lexer_state, b);
                            assert(self.text() =~= old(self).text() + bytes@.push(b));
                        }
                    }
                    proof {
                        self.lemma_stack_len();
                    }
                    bytes.push(b);
                    proof {
                        let old_states = states;
                        states = states.push(*self);
                        assert(self.pushed(&at, at.lexed(Some(b)), true));
                        assert(here.forced_step(b, &*self));
                        assert forall|i: int| 0 <= i < bytes@.len() implies (
                        #[trigger] states[i]).forced_step(bytes@[i], &states[i + 1]) by {
                            if i < bytes@.len() - 1 {
                                assert(old_states[i].forced_step(bytes@[i], &old_states[i + 1]));
                            }
                        }
                    }
                },
                None => {
                    go_on = false;
                    proof {
                        assert(self.text() == here.text());
                    }
                },
            }
        }
        bytes
    }

    /// The item in position `k` of the current row.
    pub(crate) fn curr_item(&self, k: usize) -> (r: Item)
        requires
            self.wf(),
            k < self.curr_items().len(),
        ensures
            r == self.curr_items()[k as int],
            self.grammar_view().valid_rule(r.rule_spec()),
    {
        let row_idx = self.num_rows() - 1;
        proof {
            self.lemma_live_item_valid(row_idx as int, k as int);
        }
        self.scratch.item_at(self.rows[row_idx].first_item + k)
    }

    /// Number of items of the current row.
    pub(crate) fn curr_len(&self) -> (r: usize)
        requires
            self.wf(),
        ensures
            r == self.curr_items().len(),
    {
        let row_idx = self.num_rows() - 1;
        self.rows[row_idx].last_item - self.rows[row_idx].first_item
    }

    /// Whether an item of the current row waits for a terminal other than
    /// the skip class, or for a nested grammar.
    pub(crate) fn can_advance_inner(&self) -> (r: bool)
        requires
            self.wf(),
        ensures
            r == exists|k: int|
                0 <= k < self.curr_items().len() && wants_progress(
                    self.grammar_view(),
                    #[trigger] self.curr_items()[k],
                ),
    {
        let n = self.curr_len();
        let mut k: usize = 0;
        while k < n
            invariant
                k <= n,
                self.wf(),
                n == self.curr_items().len(),
                forall|j: int|
                    0 <= j < k ==> !wants_progress(self.grammar_view(), #[trigger] self.curr_items()[j]),
            decreases n - k,
        {
            let item = self.curr_item(k);
            let data = self.grammar.sym_data_dot(item.rule_idx());
            let is_skip = match data.lexeme {
                Some(lx) => lx == LexemeIdx::skip(),
                None => false,
            };
            if !(is_skip || data.idx.is_null()) && (data.is_terminal || data.gen_grammar.is_some()) {
                return true;
            }
            k += 1;
        }
        false
    }

    /// Whether the parse can go on: bytes of a lexeme are pending, or an
    /// item of the current row waits for a terminal or a nested grammar.
    pub fn can_advance(&self) -> (r: bool)
        requires
            self.wf(),
        ensures
            r == (self.pending_bytes().len() > 0 || exists|k: int|
                0 <= k < self.curr_items().len() && wants_progress(
                    self.grammar_view(),
                    #[trigger] self.curr_items()[k],
                )),
    {
        self.has_pending_lexeme_bytes() || self.can_advance_inner()
    }

    /// The model variables that the items of the current row wait for.
    pub(crate) fn row_variables(&self) -> (r: Vec<ModelVariable>)
        requires
            self.wf(),
        ensures
            r@ == vars_of(self.grammar_view(), self.curr_items()),
    {
        let ghost g = self.grammar_view();
        let ghost row = self.curr_items();
        let n = self.curr_len();
        let mut vars: Vec<ModelVariable> = Vec::new();
        let mut k: usize = 0;
        proof {
            assert(row.take(0) =~= Seq::<Item>::empty());
        }
        while k < n
            invariant
                k <= n,
                self.wf(),
                g == self.grammar_view(),
                row == self.curr_items(),
                n == row.len(),
                vars@ == vars_of(g, row.take(k as int)),
            decreases n - k,
        {
            let item = self.curr_item(k);
            proof {
                assert(row.take(k + 1).drop_last() =~= row.take(k as int));
                assert(row.take(k + 1).last() == item);
            }
            let sym_data = self.grammar.sym_data_dot(item.rule_idx());
            match &sym_data.props.model_variable {
                Some(mv) => {
                    let mut found = false;
                    let mut j: usize = 0;
                    while j < vars.len() && !found
                        invariant
                            j <= vars@.len(),
                            found ==> has_var(vars@, *mv),
                            !found ==> forall|i: int| 0 <= i < j ==> !(#[trigger] vars@[i]).same_spec(mv),
                        decreases vars@.len() - j + (if found { 0nat } else { 1nat }),
                    {
                        if vars[j].same(mv) {
                            found = true;
                        } else {
                            j += 1;
                        }
                    }
                    if !found {
                        vars.push(mv.copy());
                    }
                },
                None => {},
            }
            k += 1;
        }
        proof {
            assert(row.take(n as int) =~= row);
        }
        vars
    }

    /// The model variables that can come next: those that an item of the
    /// row waits for that is reached when the pending lexeme is ended, each
    /// once, in the order in which the row first names them; none where the
    /// pending lexeme cannot be ended. Found by speculation; the committed
    /// state is as before.
    pub fn model_variables(&mut self) -> (r: Vec<ModelVariable>)
        requires
            old(self).wf(),
            old(self).committed(),
        ensures
            final(self).wf(),
            final(self).restored(old(self)),
            final(self).pending_gen_grammar() == old(self).pending_gen_grammar(),
            final(self).gen_grammar_accepting() == old(self).gen_grammar_accepting(),
            final(self).counts_kept(old(self)),
            exists|trial: Parser, end: Parser, flushed: bool|
                {
                    &&& #[trigger] final(self).ended_in_trial(old(self), &trial, &end, flushed)
                    &&& r@ == (if flushed {
                        vars_of(end.grammar_view(), end.curr_items())
                    } else {
                        Seq::<ModelVariable>::empty()
                    })
                },
    {
        self.trie_started_inner();
        let ghost trial = *self;
        let flushed = self.flush_lexer();
        let ghost end = *self;
        let vars = if flushed {
            self.row_variables()
        } else {
            Vec::new()
        };
        proof {
            Self::lemma_flush_speculates(end, trial, *old(self), flushed);
        }
        self.trie_finished_inner();
        proof {
            assert(trial.wf() && trial.speculates_from(old(self)) && trial.stack() == old(self).stack());
            assert(end.wf() && end.flushed(&trial, flushed));
            assert(self.ended_in_trial(old(self), &trial, &end, flushed));
            assert(vars@ == (if flushed {
                vars_of(end.grammar_view(), end.curr_items())
            } else {
                Seq::<ModelVariable>::empty()
            }));
        }
        vars
    }

    /// The nested grammar that is to run next, if an item of the current row
    /// waits for one: the symbol that stands for it and how it is to be run,
    /// together with every symbol that competes with it for the input. More
    /// than one competitor means that the grammar is ambiguous here.
    pub fn maybe_gen_grammar(&self) -> (r: Option<(Vec<CSymIdx>, CSymIdx, GenGrammarOptions)>)
        requires
            self.wf(),
            self.committed(),
        ensures
            r is None <==> gen_choice(self.grammar_view(), self.curr_items()) is None,
            r matches Some((rivals, idx, options)) ==> {
                &&& Some((idx, options)) == gen_choice(self.grammar_view(), self.curr_items())
                &&& rivals@ == gen_rivals(self.grammar_view(), self.curr_items())
            },
    {
        let ghost g = self.grammar_view();
        let ghost row = self.curr_items();
        let n = self.curr_len();
        let mut res: Option<(CSymIdx, GenGrammarOptions)> = None;
        let mut gen_grm: Vec<CSymIdx> = Vec::new();
        let mut k: usize = 0;
        proof {
            assert(row.take(0) =~= Seq::<Item>::empty());
        }
        while k < n
            invariant
                k <= n,
                self.wf(),
                g == self.grammar_view(),
                row == self.curr_items(),
                n == row.len(),
                res == gen_choice(g, row.take(k as int)),
                gen_grm@ == gen_rivals(g, row.take(k as int)),
            decreases n - k,
        {
            let item = self.curr_item(k);
            proof {
                assert(row.take(k + 1).drop_last() =~= row.take(k as int));
                assert(row.take(k + 1).last() == item);
            }
            let idx = self.grammar.sym_idx_dot(item.rule_idx());
            let sym_data = self.grammar.sym_data_dot(item.rule_idx());
            match sym_data.gen_grammar {
                Some(gg) => {
                    // Ties go to the grammar with the lowest number.
                    let better = match res {
                        None => true,
                        Some(best) => {
                            let (_, options) = best;
                            options.grammar.0 > gg.grammar.0
                        },
                    };
                    if better {
                        res = Some((idx, gg));
                    }
                    gen_grm.push(idx);
                },
                None => {
                    if sym_data.is_terminal {
                        gen_grm.push(idx);
                    }
                },
            }
            k += 1;
        }
        proof {
            assert(row.take(n as int) =~= row);
        }
        match res {
            None => None,
            Some((idx, options)) => Some((gen_grm, idx, options)),
        }
    }

    /// The index of the byte at which hidden lookahead begins in what was
    /// read, where the lexer may be inside the hidden part of a lexeme;
    /// `usize::MAX` where it is not, and where the index cannot be formed.
    pub fn hidden_start(&self) -> (r: usize)
        requires
            self.wf(),
            self.definitive(),
        ensures
            r == ({
                let hidden_len = self.lexer_view().desc(self.top().lexer_state).possible_hidden_len;
                let pending = self.pending_bytes().len();
                let prefix = self.infos()[self.num_rows_spec() - 1].start_byte_idx;
                if hidden_len == 0 || hidden_len > pending || prefix + (pending - hidden_len)
                    > usize::MAX {
                    usize::MAX
                } else {
                    (prefix + (pending - hidden_len)) as usize
                }
            }),
    {
        let hidden_len = self.lexer.possible_hidden_len(self.lexer_state().lexer_state);
        if hidden_len == 0 {
            return usize::MAX;
        }
        let pending = self.curr_row_bytes().len();
        if hidden_len > pending {
            return usize::MAX;
        }
        let last_lexeme_visible_len = pending - hidden_len;
        let prefix_len = self.row_infos[self.num_rows() - 1].start_byte_idx;
        match prefix_len.checked_add(last_lexeme_visible_len) {
            Some(v) => v,
            None => usize::MAX,
        }
    }

    /// The bytes that were read, and for each of them the row that it
    /// belongs to: for every row the visible bytes of the lexeme that was
    /// scanned from it, and for the current row, while no lexeme was scanned
    /// from it, the bytes that are pending on the lexer stack. Each row
    /// info is given the number of bytes before its row.
    pub(crate) fn get_bytes_and_lexeme_indices(&mut self) -> (r: (Vec<usize>, Vec<u8>))
        requires
            old(self).wf(),
            old(self).committed(),
        ensures
            final(self).wf(),
            final(self).committed(),
            final(self).frame_kept(old(self)),
            final(self).stack() == old(self).stack(),
            final(self).rows_kept(old(self), old(self).rows_len()),
            final(self).rows_len() == old(self).rows_len(),
            final(self).captures_view() == old(self).captures_view(),
            final(self).stats_view() == old(self).stats_view(),
            r.0@ == indices_upto(
                old(self).infos(),
                old(self).pending_bytes(),
                old(self).num_rows_spec(),
                old(self).num_rows_spec() as int,
            ),
            r.1@ == text_upto(
                old(self).infos(),
                old(self).pending_bytes(),
                old(self).num_rows_spec(),
                old(self).num_rows_spec() as int,
            ),
            r.0@.len() == r.1@.len(),
            forall|k: int| 0 <= k < r.0@.len() ==> #[trigger] r.0@[k] < old(self).num_rows_spec(),
            forall|a: int, b: int| 0 <= a <= b < r.0@.len() ==> #[trigger] r.0@[a] <= #[trigger] r.0@[b],
            final(self).infos().len() == old(self).infos().len(),
            forall|i: int|
                0 <= i < old(self).infos().len() ==> {
                    &&& (#[trigger] final(self).infos()[i]).lexeme == old(self).infos()[i].lexeme
                    &&& final(self).infos()[i].token_idx_start == old(self).infos()[i].token_idx_start
                    &&& final(self).infos()[i].token_idx_stop == old(self).infos()[i].token_idx_stop
                    &&& final(self).infos()[i].max_tokens == old(self).infos()[i].max_tokens
                    &&& final(self).infos()[i].start_byte_idx == text_upto(
                        old(self).infos(),
                        old(self).pending_bytes(),
                        old(self).num_rows_spec(),
                        i,
                    ).len()
                },
    {
        let mut indices: Vec<usize> = Vec::new();
        let mut allbytes: Vec<u8> = Vec::new();
        let n = self.row_infos.len();
        let pending = self.curr_row_bytes();
        let ghost infos0 = old(self).infos();
        let ghost pend = old(self).pending_bytes();
        let ghost rows = old(self).num_rows_spec();
        let mut idx: usize = 0;
        while idx < n
            invariant
                idx <= n,
                n == rows,
                n == infos0.len(),
                infos0 == old(self).infos(),
                pend == old(self).pending_bytes(),
                pending@ == pend,
                old(self).wf(),
                self.grammar == old(self).grammar,
                self.lexer == old(self).lexer,
                self.scratch == old(self).scratch,
                self.rows == old(self).rows,
                self.captures == old(self).captures,
                self.lexer_stack == old(self).lexer_stack,
                self.stats == old(self).stats,
                self.trie_lexer_stack == old(self).trie_lexer_stack,
                self.last_collapse == old(self).last_collapse,
                self.token_idx == old(self).token_idx,
                self.byte_idx == old(self).byte_idx,
                self.trie_gen_grammar == old(self).trie_gen_grammar,
                self.trie_gen_grammar_accepting == old(self).trie_gen_grammar_accepting,
                self.row_infos@.len() == n,
                indices@ == indices_upto(infos0, pend, rows, idx as int),
                allbytes@ == text_upto(infos0, pend, rows, idx as int),
                indices@.len() == allbytes@.len(),
                forall|k: int| 0 <= k < indices@.len() ==> #[trigger] indices@[k] < idx,
                forall|a: int, b: int|
                    0 <= a <= b < indices@.len() ==> #[trigger] indices@[a] <= #[trigger] indices@[b],
                forall|i: int|
                    0 <= i < n ==> {
                        &&& (#[trigger] self.row_infos@[i]).lexeme == infos0[i].lexeme
                        &&& self.row_infos@[i].token_idx_start == infos0[i].token_idx_start
                        &&& self.row_infos@[i].token_idx_stop == infos0[i].token_idx_stop
                        &&& self.row_infos@[i].max_tokens == infos0[i].max_tokens
                    },
                forall|i: int|
                    0 <= i < idx ==> (#[trigger] self.row_infos@[i]).start_byte_idx == text_upto(
                        infos0,
                        pend,
                        rows,
                        i,
                    ).len(),
            decreases n - idx,
        {
            proof {
                assert(infos0[idx as int].lexeme.wf());
            }
            let visible = self.row_infos[idx].lexeme.visible_bytes();
            let use_pending = visible.len() == 0 && idx == n - 1;
            let len = if use_pending {
                pending.len()
            } else {
                visible.len()
            };
            self.row_infos[idx].start_byte_idx = allbytes.len();
            let ghost before_idx = indices@;
            let mut j: usize = 0;
            while j < len
                invariant
                    j <= len,
                    len == row_text(infos0, pend, rows, idx as int).len(),
                    use_pending ==> pending@ == row_text(infos0, pend, rows, idx as int),
                    !use_pending ==> visible@ == row_text(infos0, pend, rows, idx as int),
                    indices@ == before_idx + Seq::new(j as nat, |k: int| idx),
                    allbytes@ == text_upto(infos0, pend, rows, idx as int) + row_text(
                        infos0,
                        pend,
                        rows,
                        idx as int,
                    ).take(j as int),
                decreases len - j,
            {
                indices.push(idx);
                if use_pending {
                    allbytes.push(pending[j]);
                } else {
                    allbytes.push(visible[j]);
                }
                proof {
                    let text = row_text(infos0, pend, rows, idx as int);
                    assert(text.take(j + 1) =~= text.take(j as int).push(text[j as int]));
                    assert(indices@ =~= before_idx + Seq::new((j + 1) as nat, |k: int| idx));
                    assert(allbytes@ =~= text_upto(infos0, pend, rows, idx as int) + text.take(j + 1));
                }
                j += 1;
            }
            proof {
                let text = row_text(infos0, pend, rows, idx as int);
                assert(text.take(len as int) =~= text);
                assert(indices@ =~= indices_upto(infos0, pend, rows, idx + 1));
            }
            idx += 1;
        }
        proof {
            assert forall|i: int| #[trigger] self.row_items(i) == old(self).row_items(i) by {}
            assert(self.rows_wf()) by {
                assert(old(self).rows_wf());
            }
            assert(self.stack_wf());
            assert(self.infos_wf()) by {
                assert forall|i: int| 0 <= i < self.row_infos@.len() implies (
                #[trigger] self.row_infos@[i]).lexeme.wf() by {
                    assert(infos0[i].lexeme.wf());
                }
            }
        }
        (indices, allbytes)
    }

    /// The bytes that were read: for every row the visible bytes of the
    /// lexeme that was scanned from it, and for the current row, while no
    /// lexeme was scanned from it, the bytes of the frames of the lexer stack
    /// that belong to it, in the order of the stack.
    pub fn get_bytes(&mut self) -> (r: Vec<u8>)
        requires
            old(self).wf(),
            old(self).committed(),
        ensures
            final(self).wf(),
            final(self).committed(),
            final(self).frame_kept(old(self)),
            final(self).stack() == old(self).stack(),
            final(self).rows_kept(old(self), old(self).rows_len()),
            final(self).rows_len() == old(self).rows_len(),
            final(self).captures_view() == old(self).captures_view(),
            final(self).stats_view() == old(self).stats_view(),
            r@ == text_upto(
                old(self).infos(),
                old(self).pending_bytes(),
                old(self).num_rows_spec(),
                old(self).num_rows_spec() as int,
            ),
            final(self).infos().len() == old(self).infos().len(),
            forall|i: int|
                0 <= i < old(self).infos().len() ==> {
                    &&& (#[trigger] final(self).infos()[i]).lexeme == old(self).infos()[i].lexeme
                    &&& final(self).infos()[i].token_idx_start == old(self).infos()[i].token_idx_start
                    &&& final(self).infos()[i].token_idx_stop == old(self).infos()[i].token_idx_stop
                    &&& final(self).infos()[i].max_tokens == old(self).infos()[i].max_tokens
                    &&& final(self).infos()[i].start_byte_idx == text_upto(
                        old(self).infos(),
                        old(self).pending_bytes(),
                        old(self).num_rows_spec(),
                        i,
                    ).len()
                },
    {
        self.get_bytes_and_lexeme_indices().1
    }

    /// Whether the parser is in definitive mode.
    pub fn is_definitive(&self) -> (r: bool)
        ensures
            r == self.definitive(),
    {
        self.scratch.definitive
    }

    /// The items of the live row `row_idx`, in order; no items where there
    /// is no such row.
    pub fn items_of_row(&self, row_idx: usize) -> (r: Vec<Item>)
        requires
            self.wf(),
        ensures
            r@ == (if row_idx < self.num_rows_spec() {
                self.row_items(row_idx as int)
            } else {
                Seq::<Item>::empty()
            }),
    {
        let mut out: Vec<Item> = Vec::new();
        if row_idx >= self.num_rows() {
            return out;
        }
        let first = self.rows[row_idx].first_item;
        let last = self.rows[row_idx].last_item;
        let ghost row = self.row_items(row_idx as int);
        let mut i: usize = first;
        while i < last
            invariant
                first <= i <= last,
                self.wf(),
                row_idx < self.num_rows_spec(),
                first == self.rows@[row_idx as int].first_item,
                last == self.rows@[row_idx as int].last_item,
                row == self.row_items(row_idx as int),
                out@ == row.take(i - first),
            decreases last - i,
        {
            proof {
                if row.len() > 0 {
                    self.lemma_live_item_valid(row_idx as int, i - first);
                }
                assert(row.take(i + 1 - first) =~= row.take(i - first).push(row[i - first]));
            }
            out.push(self.scratch.item_at(i));
            i += 1;
        }
        proof {
            assert(row.take(last - first) =~= row);
        }
        out
    }

    /// The lexeme classes that may follow the live row `row_idx`.
    pub fn allowed_lexemes_of_row(&self, row_idx: usize) -> (r: Option<&LexemeSet>)
        requires
            self.wf(),
        ensures
            r is Some <==> row_idx < self.num_rows_spec(),
            r matches Some(set) ==> set@ == self.row_allowed(row_idx as int),
    {
        if row_idx < self.num_rows() {
            Some(&self.rows[row_idx].allowed_lexemes)
        } else {
            None
        }
    }

    /// What is kept of the committed row `row_idx` beside its items.
    pub fn row_info(&self, row_idx: usize) -> (r: Option<&RowInfo>)
        ensures
            r is Some <==> row_idx < self.infos().len(),
            r matches Some(info) ==> *info == self.infos()[row_idx as int],
    {
        if row_idx < self.row_infos.len() {
            Some(&self.row_infos[row_idx])
        } else {
            None
        }
    }

    /// Number of the token that is being applied.
    pub fn token_idx(&self) -> (r: usize)
        ensures
            r == self.token_idx_view(),
    {
        self.token_idx
    }

    /// Number of rows that were live when the parse was last marked as one
    /// that will not be backed over.
    pub fn last_collapse(&self) -> (r: usize)
        ensures
            r == self.last_collapse_view(),
    {
        self.last_collapse
    }

    /// The lexer.
    pub fn lexer(&self) -> (r: &crate::earley::lexer::Lexer)
        ensures
            *r == self.lexer_view(),
    {
        &self.lexer
    }
}

} // verus!
