//! The surface over which bytes are fed: definitively, or speculatively
//! between the start and the end of a walk over candidate tokens.

use vstd::prelude::*;
use crate::earley::parser::advance::tail_bytes;
use crate::earley::item::ItemProps;
use crate::earley::lexer::LexerResult;
use crate::earley::parser::step::opt_byte;
use crate::earley::parser::step::forced_by_all;
use crate::earley::lexer::StateID;
use crate::earley::parser::LexerState;
use crate::earley::parser::Parser;
use crate::earley::parser::ParserStats;

verus! {

impl Parser {
    /// What the lexer makes of `byte` in the state on top of the stack; of
    /// the end of input where there is no byte.
    pub open spec fn lexed(&self, byte: Option<u8>) -> LexerResult {
        match byte {
            Some(b) => self.lexer_view().advance_spec(self.top().lexer_state, b),
            None => self.lexer_view().force_lexeme_end_spec(self.top().lexer_state),
        }
    }

    /// Lets the parser act on what the lexer made of a byte: a new lexer
    /// state is pushed, a lexeme is handed to the parser, an error refuses
    /// the byte.
    pub(crate) fn advance_lexer_or_parser(&mut self, lex_result: LexerResult, curr: LexerState) -> (r: bool)
        requires
            old(self).wf(),
            curr == old(self).top(),
            lex_result matches LexerResult::State(s, _) ==> old(self).lexer_view().valid_state(s),
            lex_result matches LexerResult::Lexeme(pre) ==> (pre.hidden_len > 0 ==> !old(self).lexer_view().greedy_spec()),
        ensures
            final(self).wf(),
            final(self).pushed(old(self), lex_result, r),
            final(self).push_counted(old(self), old(self).stats_view(), lex_result, r),
            final(self).stats_view().lexer_ops == old(self).stats_view().lexer_ops,
            final(self).stats_view().definitive_bytes == old(self).stats_view().definitive_bytes,
    {
        match lex_result {
            LexerResult::State(next_state, byte) => {
                // The lexer moved and no lexeme ended.
                self.push_frame(
                    LexerState { row_idx: curr.row_idx, lexer_state: next_state, byte: Some(byte) },
                );
                proof {
                    assert forall|i: int| #[trigger] self.row_items(i) == old(self).row_items(i) by {}
                }
                true
            },
            LexerResult::Error => false,
            LexerResult::Lexeme(pre_lexeme) => {
                self.advance_parser(pre_lexeme)
            },
        }
    }

    /// Whether the lexeme that `byte` ends, where it ends one, hides no more
    /// bytes than it has. Tables that hold what their lexeme classes say
    /// never fail this; a byte that fails it is refused like a byte that
    /// cannot follow, and this tells the two apart.
    pub fn lexeme_fits(&self, byte: Option<u8>) -> (r: bool)
        requires
            self.wf(),
        ensures
            r == (self.lexed(byte) matches LexerResult::Lexeme(pre) ==> pre.hidden_len <= self.lexeme_bytes(
                pre,
            ).len()),
    {
        let curr = self.lexer_state();
        let res = match byte {
            None => self.lexer.force_lexeme_end(curr.lexer_state),
            Some(b) => self.lexer.advance(curr.lexer_state, b, false),
        };
        match res {
            LexerResult::Lexeme(pre) => {
                let pending = self.curr_row_bytes();
                let own: usize = if pre.byte_next_row || pre.byte.is_none() {
                    0
                } else {
                    1
                };
                proof {
                    self.lemma_stack_len();
                }
                pre.hidden_len <= pending.len() + own
            },
            _ => true,
        }
    }

    /// The bytes that the lexeme which `byte` ends hides, where it ends one
    /// that hides bytes and has as many.
    pub fn hidden_of(&self, byte: Option<u8>) -> (r: Option<Vec<u8>>)
        requires
            self.wf(),
        ensures
            r is Some <==> (self.lexed(byte) matches LexerResult::Lexeme(pre) && 0 < pre.hidden_len
                <= self.lexeme_bytes(pre).len()),
            r matches Some(v) ==> (self.lexed(byte) matches LexerResult::Lexeme(pre) && v@
                == self.hidden_bytes_of(pre)),
    {
        let curr = self.lexer_state();
        let res = match byte {
            None => self.lexer.force_lexeme_end(curr.lexer_state),
            Some(b) => self.lexer.advance(curr.lexer_state, b, false),
        };
        match res {
            LexerResult::Lexeme(pre) => {
                let mut bytes = self.curr_row_bytes();
                if !pre.byte_next_row {
                    match pre.byte {
                        Some(b) => {
                            bytes.push(b);
                        },
                        None => {},
                    }
                }
                proof {
                    assert(bytes@ =~= self.lexeme_bytes(pre));
                }
                if pre.hidden_len == 0 || pre.hidden_len > bytes.len() {
                    None
                } else {
                    Some(tail_bytes(&bytes, pre.hidden_len))
                }
            },
            _ => None,
        }
    }

    /// Whether the lexer stands at the start of the current row although
    /// every lexeme class of the row begins with `hidden`: where `hidden` are
    /// the hidden bytes of the lexeme that was scanned last, the lexer has
    /// refused bytes that it had to take.
    pub open spec fn refuses(&self, hidden: Seq<u8>) -> bool {
        &&& self.top().byte is None
        &&& forced_by_all(
            self.grammar_view().lexer_spec_view(),
            self.row_allowed(self.num_rows_spec() - 1),
            hidden,
        )
    }

    /// Whether the lexer has refused the bytes `hidden`, to be asked in
    /// either mode after a byte was accepted whose lexeme hides them
    /// (`hidden_of`). Tables that hold what their lexeme classes say never
    /// show this; the parser goes on as if the bytes were not forced, and
    /// this tells the two apart.
    pub fn refused_hidden(&self, hidden: &Vec<u8>) -> (r: bool)
        requires
            self.wf(),
        ensures
            r == self.refuses(hidden@),
    {
        if self.lexer_state().byte.is_some() {
            return false;
        }
        let n = self.num_rows();
        proof {
            self.lemma_rows_len();
            assert(self.rows_wf_n(self.num_rows_spec()));
        }
        self.has_forced_bytes(&self.rows[n - 1].allowed_lexemes, hidden)
    }

    /// Feeds `byte` to the parser for good; the end of input where there is
    /// no byte. Returns false where the byte cannot follow. A byte that is
    /// accepted by a committed parser is added to its text, but for hidden
    /// bytes that the lexeme it ends gives back.
    pub fn try_push_byte_definitive(&mut self, byte: Option<u8>) -> (r: bool)
        requires
            old(self).wf(),
            old(self).definitive(),
        ensures
            final(self).wf(),
            final(self).pushed(old(self), old(self).lexed(byte), r),
            final(self).push_counted(
                old(self),
                ParserStats {
                    definitive_bytes: if byte is Some {
                        old(self).stats_view().definitive_bytes.wrapping_add(1)
                    } else {
                        old(self).stats_view().definitive_bytes
                    },
                    ..old(self).stats_view()
                },
                old(self).lexed(byte),
                r,
            ),
            final(self).stats_view().lexer_ops == old(self).stats_view().lexer_ops,
            final(self).stats_view().definitive_bytes == (if byte is Some {
                old(self).stats_view().definitive_bytes.wrapping_add(1)
            } else {
                old(self).stats_view().definitive_bytes
            }),
            r && (old(self).committed() || old(self).lexed(byte) is Lexeme) ==> final(self).committed(),
            r && old(self).committed() ==> final(self).text() + final(self).given_back(
                old(self),
                old(self).lexed(byte),
            ) == old(self).text() + opt_byte(byte),
            r && old(self).committed() && (old(self).lexed(byte) matches LexerResult::Lexeme(pre)
                ==> pre.hidden_len == 0) ==> final(self).text() == old(self).text() + opt_byte(byte),
            !r && old(self).committed() && final(self).committed() ==> final(self).text() == old(self).text(),
            forall|bound: usize| #[trigger]
                old(self).starts_within(bound) && old(self).token_idx_view() <= bound ==> final(self).starts_within(bound),
    {
        let curr = self.lexer_state();
        let res = match byte {
            None => self.lexer.force_lexeme_end(curr.lexer_state),
            Some(b) => {
                self.stats.definitive_bytes = self.stats.definitive_bytes.wrapping_add(1);
                self.lexer.advance(curr.lexer_state, b, self.scratch.definitive)
            },
        };
        proof {
            self.lemma_stats_only(old(self));
        }
        let ghost counted = *self;
        let r = self.advance_lexer_or_parser(res, curr);
        proof {
            self.lemma_pushed_from(&counted, old(self), res, r);
            Self::lemma_counted_same_views(*self, counted, *old(self), counted.stats_view(), res, r);
            if r && (old(self).committed() || res is Lexeme) {
                Self::lemma_pushed_committed(*self, *old(self), res);
            }
            if r && old(self).committed() {
                Self::lemma_fed_text(*self, *old(self), byte);
                if res matches LexerResult::Lexeme(pre) ==> pre.hidden_len == 0 {
                    assert(self.text() + self.given_back(old(self), res) =~= self.text());
                }
            }
            if !r && old(self).committed() && self.committed() {
                Self::lemma_refused_text(*self, *old(self), res);
            }
            assert forall|bound: usize| #[trigger]
                old(self).starts_within(bound) && old(self).token_idx_view() <= bound implies self.starts_within(
                bound,
            ) by {
                Self::lemma_pushed_windows(*self, *old(self), res, r, bound);
            }
        }
        r
    }

    /// Feeds `byte` to the parser for the time being: what it does is taken
    /// back when the speculation ends, or before by `pop_bytes`. Returns
    /// false where the byte cannot follow.
    pub fn try_push_byte(&mut self, byte: u8) -> (r: bool)
        requires
            old(self).wf(),
            !old(self).definitive(),
        ensures
            final(self).wf(),
            final(self).pushed(old(self), old(self).lexed(Some(byte)), r),
            final(self).push_counted(
                old(self),
                ParserStats {
                    lexer_ops: old(self).stats_view().lexer_ops.wrapping_add(1),
                    ..old(self).stats_view()
                },
                old(self).lexed(Some(byte)),
                r,
            ),
            final(self).stats_view().lexer_ops == old(self).stats_view().lexer_ops.wrapping_add(1),
            final(self).stats_view().definitive_bytes == old(self).stats_view().definitive_bytes,
    {
        let curr = self.lexer_state();
        self.stats.lexer_ops = self.stats.lexer_ops.wrapping_add(1);
        let res = self.lexer.advance(curr.lexer_state, byte, false);
        proof {
            self.lemma_stats_only(old(self));
        }
        let ghost counted = *self;
        let r = self.advance_lexer_or_parser(res, curr);
        proof {
            self.lemma_pushed_from(&counted, old(self), res, r);
            Self::lemma_counted_same_views(*self, counted, *old(self), counted.stats_view(), res, r);
        }
        r
    }

    /// Whether `num` bytes can be taken back: that many frames lie above the
    /// bottom of the lexer stack.
    pub open spec fn pops(&self, num: usize) -> bool {
        num < self.stack().len()
    }

    /// Whether `num` bytes can be taken back.
    pub fn can_pop(&self, num: usize) -> (r: bool)
        ensures
            r == self.pops(num),
    {
        num < self.lexer_stack.len()
    }

    /// Whether the speculation can end: the lexer stack is no shorter than
    /// it was when the speculation began, and the frame that was on top then
    /// is of the last committed row. It is not where hidden bytes that were
    /// fed again, or bytes that were taken back, went below that depth.
    pub open spec fn finishes(&self) -> bool {
        &&& !self.definitive()
        &&& 1 <= self.trie_base() <= self.stack().len()
        &&& self.stack()[self.trie_base() - 1].row_idx + 1 == self.infos().len()
    }

    /// Whether the speculation can end.
    pub fn can_finish(&self) -> (r: bool)
        requires
            self.wf(),
        ensures
            r == self.finishes(),
    {
        !self.scratch.definitive && 1 <= self.trie_lexer_stack && self.trie_lexer_stack
            <= self.lexer_stack.len() && self.lexer_stack[self.trie_lexer_stack - 1].row_idx as usize + 1
            == self.row_infos.len()
    }

    /// Takes back the `num` bytes that were fed last, as long as one frame
    /// stays. During speculation bytes from before it may be taken back too;
    /// the speculation then cannot end before the lexer stack is as deep
    /// again as it was when the speculation began, and what is fed meanwhile
    /// is written over the rows that were committed.
    pub fn pop_bytes(&mut self, num: usize)
        requires
            old(self).wf(),
            old(self).pops(num),
        ensures
            final(self).wf(),
            final(self).frame_kept(old(self)),
            final(self).stack() == old(self).stack().take(old(self).stack().len() - num),
            final(self).rows_kept(old(self), old(self).rows_len()),
            final(self).rows_len() == old(self).rows_len(),
            final(self).infos() == old(self).infos(),
            final(self).captures_view() == old(self).captures_view(),
            final(self).stats_view() == old(self).stats_view(),
    {
        self.pop_lexer_states(num);
    }

    /// Marks the current position as one that will not be backed over.
    pub fn collapse(&mut self)
        requires
            old(self).wf(),
        ensures
            final(self).wf(),
            final(self).last_collapse_view() == old(self).num_rows_spec(),
            final(self).grammar_view() == old(self).grammar_view(),
            final(self).lexer_view() == old(self).lexer_view(),
            final(self).definitive() == old(self).definitive(),
            final(self).trie_base() == old(self).trie_base(),
            final(self).token_idx_view() == old(self).token_idx_view(),
            final(self).byte_idx_view() == old(self).byte_idx_view(),
            final(self).pending_gen_grammar() == old(self).pending_gen_grammar(),
            final(self).gen_grammar_accepting() == old(self).gen_grammar_accepting(),
            final(self).stack() == old(self).stack(),
            final(self).rows_kept(old(self), old(self).rows_len()),
            final(self).infos() == old(self).infos(),
            final(self).captures_view() == old(self).captures_view(),
            final(self).stats_view() == old(self).stats_view(),
    {
        self.last_collapse = self.num_rows();
        proof {
            assert forall|i: int| #[trigger] self.row_items(i) == old(self).row_items(i) by {}
            assert(self.rows_wf()) by {
                assert(old(self).rows_wf());
            }
            assert(self.stack_wf());
            assert(self.infos_wf());
        }
    }

    /// Begins a speculation: what is fed from now on can be taken back.
    pub(crate) fn trie_started_inner(&mut self)
        requires
            old(self).wf(),
            old(self).committed(),
        ensures
            final(self).wf(),
            final(self).speculates_from(old(self)),
            final(self).stack() == old(self).stack(),
            final(self).stats_view() == old(self).stats_view(),
            final(self).rows_len() == old(self).rows_len(),
            final(self).pending_gen_grammar() == old(self).pending_gen_grammar(),
            final(self).gen_grammar_accepting() == old(self).gen_grammar_accepting(),
    {
        self.trie_lexer_stack = self.lexer_stack.len();
        self.scratch.definitive = false;
        proof {
            assert forall|i: int| #[trigger] self.row_items(i) == old(self).row_items(i) by {}
            assert(self.rows_wf()) by {
                assert(old(self).rows_wf());
            }
            assert(self.stack_wf());
            assert(self.infos_wf());
            assert(self.stack().take(self.trie_base() as int) =~= old(self).stack());
        }
    }

    /// Ends a speculation: the lexer stack is cut back to where the
    /// speculation began, and the parser is in definitive mode again.
    pub(crate) fn trie_finished_inner(&mut self)
        requires
            old(self).wf(),
            old(self).finishes(),
        ensures
            final(self).wf(),
            final(self).committed(),
            final(self).stack() == old(self).stack().take(old(self).trie_base() as int),
            final(self).grammar_view() == old(self).grammar_view(),
            final(self).lexer_view() == old(self).lexer_view(),
            final(self).token_idx_view() == old(self).token_idx_view(),
            final(self).byte_idx_view() == old(self).byte_idx_view(),
            final(self).last_collapse_view() == old(self).last_collapse_view(),
            final(self).pending_gen_grammar() == old(self).pending_gen_grammar(),
            final(self).gen_grammar_accepting() == old(self).gen_grammar_accepting(),
            final(self).rows_kept(old(self), old(self).rows_len()),
            final(self).infos() == old(self).infos(),
            final(self).captures_view() == old(self).captures_view(),
            final(self).stats_view() == old(self).stats_view(),
            final(self).rows_len() == old(self).rows_len(),
            forall|began: Parser| #[trigger] old(self).speculates_from(&began) ==> final(self).restored(&began),
    {
        let extra = self.lexer_stack.len() - self.trie_lexer_stack;
        self.pop_lexer_states(extra);
        let ghost popped = *self;
        // Where the speculation wrote over committed rows, their items get
        // bookkeeping of their own.
        let mut k: usize = 0;
        while k < self.row_infos.len()
            invariant
                k <= self.row_infos@.len(),
                popped.wf(),
                self.grammar == popped.grammar,
                self.lexer == popped.lexer,
                self.rows == popped.rows,
                self.row_infos == popped.row_infos,
                self.captures == popped.captures,
                self.lexer_stack == popped.lexer_stack,
                self.stats == popped.stats,
                self.trie_lexer_stack == popped.trie_lexer_stack,
                self.last_collapse == popped.last_collapse,
                self.token_idx == popped.token_idx,
                self.byte_idx == popped.byte_idx,
                self.trie_gen_grammar == popped.trie_gen_grammar,
                self.trie_gen_grammar_accepting == popped.trie_gen_grammar_accepting,
                self.scratch.items == popped.scratch.items,
                self.scratch.row_start == popped.scratch.row_start,
                self.scratch.row_end == popped.scratch.row_end,
                self.scratch.definitive == popped.scratch.definitive,
                forall|i: int| 0 <= i < k ==> (#[trigger] self.rows@[i]).last_item <= self.scratch.item_props@.len(),
            decreases self.row_infos@.len() - k,
        {
            let last = self.rows[k].last_item;
            while self.scratch.item_props.len() < last
                invariant
                    k < self.row_infos@.len(),
                    self.rows == popped.rows,
                    self.row_infos == popped.row_infos,
                    self.scratch.items == popped.scratch.items,
                    self.scratch.row_start == popped.scratch.row_start,
                    self.scratch.row_end == popped.scratch.row_end,
                    self.scratch.definitive == popped.scratch.definitive,
                    self.grammar == popped.grammar,
                    self.lexer == popped.lexer,
                    self.captures == popped.captures,
                    self.lexer_stack == popped.lexer_stack,
                    self.stats == popped.stats,
                    self.trie_lexer_stack == popped.trie_lexer_stack,
                    self.last_collapse == popped.last_collapse,
                    self.token_idx == popped.token_idx,
                    self.byte_idx == popped.byte_idx,
                    self.trie_gen_grammar == popped.trie_gen_grammar,
                    self.trie_gen_grammar_accepting == popped.trie_gen_grammar_accepting,
                    last == self.rows@[k as int].last_item,
                    forall|i: int|
                        0 <= i < k ==> (#[trigger] self.rows@[i]).last_item <= self.scratch.item_props@.len(),
                decreases last - self.scratch.item_props@.len(),
            {
                self.scratch.item_props.push(ItemProps::new());
            }
            k += 1;
        }
        self.scratch.definitive = true;
        proof {
            assert forall|i: int| #[trigger] self.row_items(i) == old(self).row_items(i) by {}
            assert(self.rows_wf()) by {
                assert(popped.rows_wf());
            }
            assert(self.stack_wf());
            assert(self.infos_wf());
        }
    }

    /// The state on top of a speculation that began at `began`: what was
    /// committed at `began` is still there.
    pub open spec fn speculates_from(&self, began: &Parser) -> bool {
        &&& !self.definitive()
        &&& began.committed()
        &&& self.trie_base() == began.stack().len()
        &&& 1 <= self.trie_base() <= self.stack().len()
        &&& self.stack().take(self.trie_base() as int) == began.stack()
        &&& self.rows_kept(began, began.num_rows_spec())
        &&& self.infos() == began.infos()
        &&& self.captures_view() == began.captures_view()
        &&& self.grammar_view() == began.grammar_view()
        &&& self.lexer_view() == began.lexer_view()
        &&& self.token_idx_view() == began.token_idx_view()
        &&& self.byte_idx_view() == began.byte_idx_view()
        &&& self.last_collapse_view() == began.last_collapse_view()
    }

    /// The committed state of `began` is back: the same lexer stack, the same
    /// live rows, row infos and captures, in definitive mode.
    pub open spec fn restored(&self, began: &Parser) -> bool {
        &&& self.committed()
        &&& self.stack() == began.stack()
        &&& self.rows_kept(began, began.num_rows_spec())
        &&& self.infos() == began.infos()
        &&& self.captures_view() == began.captures_view()
        &&& self.grammar_view() == began.grammar_view()
        &&& self.lexer_view() == began.lexer_view()
        &&& self.token_idx_view() == began.token_idx_view()
        &&& self.byte_idx_view() == began.byte_idx_view()
        &&& self.last_collapse_view() == began.last_collapse_view()
    }

    /// Sets every counter of the statistics back to zero.
    pub fn reset_stats(&mut self)
        requires
            old(self).wf(),
        ensures
            final(self).wf(),
            final(self).unchanged(old(self)),
            final(self).pending_gen_grammar() == old(self).pending_gen_grammar(),
            final(self).gen_grammar_accepting() == old(self).gen_grammar_accepting(),
            final(self).stats_view() == (ParserStats {
                rows: 0,
                definitive_bytes: 0,
                lexer_ops: 0,
                all_items: 0,
                hidden_bytes: 0,
            }),
    {
        self.stats = ParserStats::new();
        proof {
            assert forall|i: int| #[trigger] self.row_items(i) == old(self).row_items(i) by {}
            self.lemma_stats_only(old(self));
        }
    }

    /// The lexeme of every row info is well-formed: it hides no more bytes
    /// than it has, and a placeholder hides none.
    pub proof fn lemma_info_lexeme(&self, i: int)
        requires
            self.wf(),
            0 <= i < self.infos().len(),
        ensures
            self.infos()[i].lexeme.wf(),
            self.infos()[i].lexeme.is_bogus_spec() ==> self.infos()[i].lexeme.hidden_len == 0,
    {
    }

    /// A parser that differs from `old` in its statistics only.
    pub(crate) open spec fn stats_only(&self, old: &Parser) -> bool {
        &&& self.restacked(old)
        &&& self.lexer_stack == old.lexer_stack
    }

    pub(crate) proof fn lemma_stats_only(&self, old: &Parser)
        requires
            old.wf(),
            self.stats_only(old),
        ensures
            self.wf(),
            self.top() == old.top(),
            self.lexer_view() == old.lexer_view(),
            self.definitive() == old.definitive(),
    {
        assert forall|i: int| #[trigger] self.row_items(i) == old.row_items(i) by {}
        assert(self.rows_wf()) by {
            assert(old.rows_wf());
        }
        assert(self.stack_wf());
        assert(self.infos_wf());
    }

    /// What holds of a step from a parser holds of the step from one that
    /// differs from it in its statistics only.
    pub(crate) proof fn lemma_pushed_from(&self, counted: &Parser, old: &Parser, res: LexerResult, r: bool)
        requires
            counted.stats_only(old),
            self.pushed(counted, res, r),
        ensures
            self.pushed(old, res, r),
            counted.same_views(old),
    {
        assert forall|i: int| #[trigger] counted.row_items(i) == old.row_items(i) by {}
        Self::lemma_pushed_same_views(*self, *counted, *old, res, r);
    }
}

} // verus!
