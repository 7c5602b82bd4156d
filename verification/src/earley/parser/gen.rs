//! Nested grammars, and the walk over candidate tokens that brackets a
//! speculation.

use vstd::prelude::*;
use crate::earley::parser::rows::seeds_of;
use crate::earley::grammar::CSymIdx;
use crate::earley::grammar::ModelVariable;
use crate::earley::item::Item;
use crate::earley::lexerspec::Lexeme;
use crate::earley::lexerspec::LexemeIdx;
use crate::earley::parser::LexerState;
use crate::earley::parser::Parser;
use crate::earley::parser::rows::SeedBy;
use crate::earley::parser::step::accepts_row;

verus! {

impl Parser {
    /// Scans the output of the nested grammar of symbol `symidx`.
    pub(crate) fn scan_gen_grammar_inner(&mut self, symidx: CSymIdx, inner_bytes: Vec<u8>) -> (r: bool)
        requires
            old(self).wf(),
        ensures
            final(self).wf(),
            final(self).gen_scanned(old(self), symidx, inner_bytes@, r),
            final(self).counts_kept(old(self)),
    {
        if self.num_rows() > 0xffff_ffff - 2 {
            return false;
        }
        let by = SeedBy::Symbol(symidx);
        self.seed_row(&by);
        let ghost seeds = self.work_row();
        if self.scratch.row_len() == 0 {
            proof {
                let n = old(self).num_rows_spec();
                assert forall|i: int| 0 <= i < n implies #[trigger] self.row_items(i) == old(self).row_items(i) && self.row_allowed(i) == old(self).row_allowed(i) by {
                    assert(self.rows@[i] == old(self).rows@[i]);
                }
            }
            return false;
        }
        let lexeme = Lexeme::new(LexemeIdx::skip(), inner_bytes, 0);
        let ghost lexeme_view = lexeme;
        let ghost mid = *self;
        let r = self.push_row(self.num_rows(), self.scratch.row_start, &lexeme);
        proof {
            self.lemma_pushed_after_seeding(
                &mid,
                old(self),
                seeds,
                0,
                lexeme.visible_bytes_spec(),
                lexeme.hidden_bytes_spec(),
                r,
            );
            assert(seeds =~= self.work_row().subrange(0, seeds.len() as int));
            assert(r);
        }
        let ghost made = *self;
        let state = self.lexer_state_for_added_row(lexeme, None);
        proof {
            self.lemma_row_scanned(&made, old(self), seeds, false, lexeme_view);
            assert(self.row_allowed(old(self).num_rows_spec() as int) == made.row_allowed(
                old(self).num_rows_spec() as int,
            ));
        }
        let ghost recorded = *self;
        self.push_frame(state);
        proof {
            self.lemma_restacked_row_scanned(
                &recorded,
                old(self),
                seeds,
                false,
                LexemeIdx::skip_spec(),
                inner_bytes@,
                0,
            );
        }
        true
    }

    /// Scans the output of the nested grammar of symbol `symidx`, which has
    /// run outside the parser. Returns false, and changes nothing, where no
    /// item waits for the symbol.
    pub fn scan_gen_grammar(&mut self, symidx: CSymIdx, inner_bytes: Vec<u8>) -> (r: bool)
        requires
            old(self).wf(),
            old(self).committed(),
        ensures
            final(self).wf(),
            final(self).gen_scanned(old(self), symidx, inner_bytes@, r),
            final(self).counts_kept(old(self)),
            final(self).committed(),
    {
        let r = self.scan_gen_grammar_inner(symidx, inner_bytes);
        proof {
            if r {
                let n = old(self).num_rows_spec();
                assert(self.stack().last().row_idx == n as u32);
            }
        }
        r
    }

    /// Whether an item of the current row waits for the nested grammar of
    /// symbol `symidx`. Where none does, the nested grammar cannot be
    /// scanned.
    pub fn waits_for_gen_grammar(&self, symidx: CSymIdx) -> (r: bool)
        requires
            self.wf(),
        ensures
            r == (self.gen_seeds(symidx).len() > 0),
    {
        let n = self.curr_len();
        let ghost g = self.grammar_view();
        let ghost cur = self.curr_items();
        let ghost by = SeedBy::Symbol(symidx);
        let mut found = false;
        let mut k: usize = 0;
        proof {
            assert(cur.take(0) =~= Seq::<Item>::empty());
        }
        while k < n
            invariant
                k <= n,
                n == cur.len(),
                self.wf(),
                cur == self.curr_items(),
                g == self.grammar_view(),
                by == SeedBy::Symbol(symidx),
                found == (seeds_of(g, cur.take(k as int), by).len() > 0),
            decreases n - k,
        {
            let item = self.curr_item(k);
            proof {
                assert(cur.take(k + 1).drop_last() =~= cur.take(k as int));
                assert(cur.take(k + 1).last() == item);
            }
            if symidx != CSymIdx::null() && self.grammar.sym_idx_dot(item.rule_idx()) == symidx {
                found = true;
            }
            k += 1;
        }
        proof {
            assert(cur.take(n as int) =~= cur);
        }
        found
    }

    /// Notes that the nested grammar of symbol `symidx` is to be taken as
    /// having run, with no output, when the next speculation begins.
    pub fn set_trie_gen_grammar(&mut self, symidx: CSymIdx)
        requires
            old(self).wf(),
        ensures
            final(self).wf(),
            final(self).pending_gen_grammar() == Some(symidx),
            final(self).gen_grammar_accepting() == old(self).gen_grammar_accepting(),
            final(self).same_parse(old(self)),
            final(self).stats_view() == old(self).stats_view(),
    {
        self.trie_gen_grammar = Some(symidx);
        proof {
            self.lemma_noted(old(self));
        }
    }

    /// Whether the speculation that began last, with a nested grammar taken
    /// as having run, found that input may end after the nested grammar.
    pub fn trie_gen_grammar_accepting(&self) -> (r: bool)
        ensures
            r == self.gen_grammar_accepting(),
    {
        self.trie_gen_grammar_accepting
    }

    /// A parser that differs from `old` only in what it notes of a nested
    /// grammar, and in its statistics, is well-formed as `old` is.
    pub(crate) proof fn lemma_noted(&self, old: &Parser)
        requires
            old.wf(),
            self.grammar == old.grammar,
            self.lexer == old.lexer,
            self.scratch == old.scratch,
            self.rows == old.rows,
            self.row_infos == old.row_infos,
            self.captures == old.captures,
            self.lexer_stack == old.lexer_stack,
            self.trie_lexer_stack == old.trie_lexer_stack,
            self.last_collapse == old.last_collapse,
            self.token_idx == old.token_idx,
            self.byte_idx == old.byte_idx,
            self.stats == old.stats,
        ensures
            self.wf(),
            self.same_parse(old),
            self.committed() == old.committed(),
            forall|began: Parser| old.speculates_from(&began) ==> #[trigger] self.speculates_from(&began),
    {
        assert forall|i: int| #[trigger] self.row_items(i) == old.row_items(i) by {}
        assert(self.rows_wf()) by {
            assert(old.rows_wf());
        }
        assert(self.stack_wf());
        assert(self.infos_wf());
        assert forall|began: Parser| old.speculates_from(&began) implies #[trigger] self.speculates_from(
            &began,
        ) by {
            assert forall|i: int| 0 <= i < began.num_rows_spec() implies #[trigger] self.row_items(i)
                == began.row_items(i) && self.row_allowed(i) == began.row_allowed(i) by {
                assert(old.row_items(i) == began.row_items(i));
            }
        }
    }

    /// Where a nested grammar was noted, takes it as having run with no
    /// output, and notes whether input may end after it.
    pub(crate) fn flush_gen_grammar(&mut self)
        requires
            old(self).wf(),
            !old(self).definitive(),
        ensures
            final(self).wf(),
            final(self).pending_gen_grammar() is None,
            old(self).pending_gen_grammar() is None ==> final(self).same_parse(old(self)) && final(self).gen_grammar_accepting() == old(self).gen_grammar_accepting(),
            old(self).pending_gen_grammar() matches Some(idx) ==> exists|mid: Parser, end: Parser, r: bool|
                {
                    &&& mid.wf()
                    &&& mid.same_parse(old(self))
                    &&& end.wf()
                    &&& #[trigger] end.gen_scanned(&mid, idx, Seq::<u8>::empty(), r)
                    &&& final(self).same_parse(&end)
                    &&& final(self).gen_grammar_accepting() == (r && accepts_row(
                        end.grammar_view(),
                        end.curr_items(),
                    ))
                },
            forall|began: Parser| old(self).speculates_from(&began) ==> #[trigger] final(self).speculates_from(&began),
            final(self).stats_view().definitive_bytes == old(self).stats_view().definitive_bytes,
            final(self).stats_view().lexer_ops == old(self).stats_view().lexer_ops,
    {
        let pending = self.trie_gen_grammar;
        self.trie_gen_grammar = None;
        proof {
            self.lemma_noted(old(self));
        }
        let ghost mid = *self;
        match pending {
            Some(idx) => {
                let r = self.scan_gen_grammar_inner(idx, Vec::new());
                let ghost end = *self;
                let accepting = r && self.row_is_accepting();
                self.trie_gen_grammar_accepting = accepting;
                proof {
                    self.lemma_noted(&end);
                    assert forall|began: Parser| old(self).speculates_from(&began) implies #[trigger] self.speculates_from(
                        &began,
                    ) by {
                        assert(mid.speculates_from(&began));
                        Self::lemma_gen_speculates(end, mid, began, idx, Seq::<u8>::empty(), r);
                    }
                    assert(end.gen_scanned(&mid, idx, Seq::<u8>::empty(), r));
                }
            },
            None => {},
        }
    }

    /// Begins a speculation, as the walk over the candidate tokens does
    /// before it tries its first byte. A nested grammar that was noted is
    /// taken as having run.
    pub fn trie_started(&mut self)
        requires
            old(self).wf(),
            old(self).committed(),
        ensures
            final(self).wf(),
            !final(self).definitive(),
            final(self).speculates_from(old(self)),
            final(self).pending_gen_grammar() is None,
            old(self).pending_gen_grammar() is None ==> final(self).stack() == old(self).stack()
                && final(self).gen_grammar_accepting() == old(self).gen_grammar_accepting()
                && final(self).stats_view() == old(self).stats_view() && final(self).rows_len() == old(self).rows_len(),
            old(self).pending_gen_grammar() matches Some(idx) ==> exists|mid: Parser, end: Parser, r: bool|
                {
                    &&& mid.wf()
                    &&& mid.speculates_from(old(self))
                    &&& mid.stack() == old(self).stack()
                    &&& mid.stats_view() == old(self).stats_view()
                    &&& mid.rows_len() == old(self).rows_len()
                    &&& end.wf()
                    &&& #[trigger] end.gen_scanned(&mid, idx, Seq::<u8>::empty(), r)
                    &&& final(self).same_parse(&end)
                    &&& final(self).gen_grammar_accepting() == (r && accepts_row(
                        end.grammar_view(),
                        end.curr_items(),
                    ))
                },
            final(self).stats_view().definitive_bytes == old(self).stats_view().definitive_bytes,
            final(self).stats_view().lexer_ops == old(self).stats_view().lexer_ops,
    {
        self.trie_started_inner();
        let ghost begun = *self;
        self.flush_gen_grammar();
        proof {
            assert(begun.speculates_from(old(self)));
            match old(self).pending_gen_grammar() {
                Some(idx) => {
                    let (mid, end, r) = choose|mid: Parser, end: Parser, r: bool|
                        {
                            &&& mid.wf()
                            &&& mid.same_parse(&begun)
                            &&& end.wf()
                            &&& #[trigger] end.gen_scanned(&mid, idx, Seq::<u8>::empty(), r)
                            &&& self.same_parse(&end)
                            &&& self.gen_grammar_accepting() == (r && accepts_row(
                                end.grammar_view(),
                                end.curr_items(),
                            ))
                        };
                    assert(mid.speculates_from(old(self))) by {
                        assert forall|i: int| 0 <= i < old(self).num_rows_spec() implies #[trigger] mid.row_items(
                            i,
                        ) == old(self).row_items(i) && mid.row_allowed(i) == old(self).row_allowed(i) by {
                            assert(begun.row_items(i) == old(self).row_items(i));
                        }
                    }
                    assert(end.gen_scanned(&mid, idx, Seq::<u8>::empty(), r));
                },
                None => {},
            }
        }
    }

    /// Ends a speculation, as the walk over the candidate tokens does when
    /// it is done: the lexer stack is cut back to where the speculation
    /// began, and what was committed then is committed now. The speculation
    /// must be one that can end (`can_finish`): hidden bytes that were fed
    /// again, or bytes that were taken back, may have gone below the depth at
    /// which it began.
    pub fn trie_finished(&mut self)
        requires
            old(self).wf(),
            old(self).finishes(),
        ensures
            final(self).wf(),
            final(self).committed(),
            final(self).stack() == old(self).stack().take(old(self).trie_base() as int),
            final(self).rows_kept(old(self), old(self).rows_len()),
            final(self).infos() == old(self).infos(),
            final(self).captures_view() == old(self).captures_view(),
            final(self).stats_view() == old(self).stats_view(),
            final(self).rows_len() == old(self).rows_len(),
            final(self).pending_gen_grammar() == old(self).pending_gen_grammar(),
            final(self).gen_grammar_accepting() == old(self).gen_grammar_accepting(),
            forall|began: Parser| #[trigger] old(self).speculates_from(&began) ==> final(self).restored(&began),
    {
        self.trie_finished_inner();
    }

    /// Makes a row from the items of the current row that wait for the
    /// model variable `mv`.
    pub(crate) fn add_variable_row(&mut self, mv: ModelVariable) -> (r: bool)
        requires
            old(self).wf(),
        ensures
            final(self).wf(),
            final(self).row_added(old(self), old(self).var_seeds(mv), r),
            final(self).counts_kept(old(self)),
    {
        if self.num_rows() > 0xffff_ffff - 2 {
            return false;
        }
        let by = SeedBy::Variable(mv);
        self.seed_row(&by);
        let ghost seeds = self.work_row();
        if self.scratch.row_len() == 0 {
            proof {
                let n = old(self).num_rows_spec();
                assert forall|i: int| 0 <= i < n implies #[trigger] self.row_items(i) == old(self).row_items(i) && self.row_allowed(i) == old(self).row_allowed(i) by {
                    assert(self.rows@[i] == old(self).rows@[i]);
                }
            }
            return false;
        }
        let lexeme = Lexeme::bogus();
        let ghost mid = *self;
        let r = self.push_row(self.num_rows(), self.scratch.row_start, &lexeme);
        proof {
            let n = old(self).num_rows_spec();
            let g = old(self).grammar_view();
            self.lemma_pushed_after_seeding(
                &mid,
                old(self),
                seeds,
                0,
                lexeme.visible_bytes_spec(),
                lexeme.hidden_bytes_spec(),
                r,
            );
            assert(seeds =~= self.work_row().subrange(0, seeds.len() as int));
            assert(r);
            assert(lexeme.visible_bytes_spec() =~= Seq::<u8>::empty());
            assert(lexeme.hidden_bytes_spec() =~= Seq::<u8>::empty());
            let row = self.row_items(n as int);
            assert(row.skip(0) =~= row);
            assert forall|i: int| 0 <= i < n implies #[trigger] self.row_items(i) == old(self).row_items(
                i,
            ) && self.row_allowed(i) == old(self).row_allowed(i) by {
                assert(self.rows@[i] == old(self).rows@[i]);
            }
            assert forall|lx: int| 0 <= lx < g.num_lexemes() implies #[trigger] self.row_allowed(
                n as int,
            )[lx] == crate::earley::rowbuild::allowed_of(g, row, 0, lx) by {}
            if old(self).definitive() {
                assert forall|i: int| 0 <= i < n implies #[trigger] self.infos()[i] == old(self).infos()[i] by {
                    assert(self.infos().take(n as int)[i] == old(self).infos().take(n as int)[i]);
                }
            }
        }
        r
    }

    /// Takes the model variable `mv` as the next piece of input. Returns
    /// false where it cannot come next.
    pub fn scan_model_variable(&mut self, mv: ModelVariable) -> (r: bool)
        requires
            old(self).wf(),
            old(self).committed(),
        ensures
            final(self).wf(),
            final(self).definitive(),
            final(self).var_scanned(old(self), mv, r),
            final(self).counts_kept(old(self)),
    {
        let lexer_eos = self.lexer_allows_eos();
        let flushed = self.flush_lexer();
        let ghost mid = *self;
        if !flushed {
            return false;
        }
        if mv.is_eos() && lexer_eos {
            // An end of sentence where input may end: it is eaten
            // without a row of its own.
            return true;
        }
        let r = self.add_variable_row(mv);
        proof {
            assert(mid.flushed(old(self), flushed));
        }
        r
    }

    /// What is left to decide after the walk over the candidate tokens:
    /// where the walk allowed no token, the pending lexeme is ended, since
    /// generation will stop here. Returns whether the end-of-sentence token
    /// is to be allowed on top of what the walk allowed.
    pub fn finish_bias(&mut self, set_is_zero: bool, start_is_empty: bool) -> (r: bool)
        requires
            old(self).wf(),
            old(self).definitive(),
        ensures
            final(self).wf(),
            final(self).definitive(),
            final(self).counts_kept(old(self)),
            r == final(self).eos_after_walk(start_is_empty),
            !set_is_zero ==> final(self).unchanged(old(self)) && final(self).stats_view() == old(self).stats_view(),
            set_is_zero ==> exists|flushed: bool| #[trigger] final(self).flushed(old(self), flushed),
    {
        if set_is_zero {
            // Nothing is allowed: generation stops, and the lexer is
            // flushed.
            let flushed = self.flush_lexer();
            proof {
                assert(self.flushed(old(self), flushed));
            }
        } else {
            proof {
                assert forall|i: int| #[trigger] self.row_items(i) == old(self).row_items(i) by {}
            }
        }
        start_is_empty && self.lexer_allows_eos()
    }
}

} // verus!
