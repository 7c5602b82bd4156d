//! Feeding bytes: the lexer stack, and what happens when a lexeme ends.

use vstd::prelude::*;
use crate::earley::closure::derivable;
use crate::earley::closure::closed_set;
use crate::earley::closure::holds_all;
use crate::earley::grammar::CGrammar;
use crate::earley::item::Item;
use crate::earley::lexer::Lexer;
use crate::earley::lexer::LexerResult;
use crate::earley::lexer::PreLexeme;
use crate::earley::lexer::StateID;
use crate::earley::lexerspec::Lexeme;
use crate::earley::lexerspec::LexemeIdx;
use crate::earley::lexerspec::LexemeSet;
use crate::earley::parser::LexerState;
use crate::earley::parser::Parser;
use crate::earley::parser::step::forced_by_all;
use crate::earley::parser::step::lexeme_byte;
use crate::earley::parser::step::opt_byte;
use crate::earley::parser::step::replay;
use crate::earley::parser::step::row_bytes;
use crate::earley::parser::step::hidden_replays;
use crate::earley::parser::step::transition_byte;
use crate::earley::parser::step::with_empty_row;
use crate::earley::parser::step::with_row;
use crate::earley::parser::ParserStats;

verus! {

/// The bytes of the frames of `stack` from position `from` on, oldest first.
pub open spec fn bytes_from(stack: Seq<LexerState>, from: int) -> Seq<u8>
    decreases stack.len(),
{
    if stack.len() == 0 || stack.len() <= from {
        seq![]
    } else {
        bytes_from(stack.drop_last(), from) + opt_byte(stack.last().byte)
    }
}

/// Where the frames from `from` on are those of row `row`, and the frame
/// before them is not, their bytes are the bytes of the row.
pub proof fn lemma_row_bytes_from(stack: Seq<LexerState>, row: u32, from: int)
    requires
        0 <= from <= stack.len(),
        forall|i: int| from <= i < stack.len() ==> (#[trigger] stack[i]).row_idx == row,
        from > 0 ==> stack[from - 1].row_idx != row,
    ensures
        row_bytes(stack, row) == bytes_from(stack, from),
    decreases stack.len(),
{
    if stack.len() > from {
        let rest = stack.drop_last();
        assert forall|i: int| from <= i < rest.len() implies (#[trigger] rest[i]).row_idx == row by {
            assert(rest[i] == stack[i]);
        }
        if from > 0 {
            assert(rest[from - 1] == stack[from - 1]);
        }
        lemma_row_bytes_from(rest, row, from);
    } else if stack.len() > 0 {
        assert(stack.last() == stack[from - 1]);
    }
}

/// There are no more bytes than frames.
pub proof fn lemma_bytes_from_len(stack: Seq<LexerState>, from: int)
    requires
        0 <= from <= stack.len(),
    ensures
        bytes_from(stack, from).len() <= stack.len() - from,
        from == 0 && stack.len() > 0 && stack[0].byte is None ==> bytes_from(stack, from).len()
            <= stack.len() - 1,
    decreases stack.len(),
{
    if stack.len() > from {
        let rest = stack.drop_last();
        lemma_bytes_from_len(rest, from);
        if from == 0 && rest.len() > 0 {
            assert(rest[0] == stack[0]);
        }
    }
}

/// Nothing is derivable from no seeds.
pub proof fn lemma_no_seeds(g: CGrammar, prev: Seq<Seq<Item>>, it: Item)
    ensures
        !derivable(g, prev, Seq::<Item>::empty(), it),
{
    let x = Set::<Item>::empty();
    assert(holds_all(x, Seq::<Item>::empty()));
    assert(closed_set(g, prev, x));
    assert(!x.contains(it));
}

/// The last `k` bytes of `bytes`.
pub(crate) fn tail_bytes(bytes: &Vec<u8>, k: usize) -> (r: Vec<u8>)
    requires
        k <= bytes@.len(),
    ensures
        r@ == bytes@.skip(bytes@.len() - k),
{
    let start = bytes.len() - k;
    let mut out: Vec<u8> = Vec::new();
    let mut i: usize = start;
    while i < bytes.len()
        invariant
            start <= i <= bytes@.len(),
            out@ == bytes@.subrange(start as int, i as int),
        decreases bytes@.len() - i,
    {
        out.push(bytes[i]);
        i += 1;
    }
    out
}

/// The bytes of the topmost frames of `stack` that belong to the row of its
/// top frame.
fn stack_row_bytes(stack: &Vec<LexerState>) -> (r: Vec<u8>)
    requires
        stack@.len() >= 1,
        stack@[0].byte is None,
    ensures
        r@ == row_bytes(stack@, stack@.last().row_idx),
        r@.len() < stack@.len(),
{
    let len = stack.len();
    let row = stack[len - 1].row_idx;
    let mut k: usize = len;
    while k > 0 && stack[k - 1].row_idx == row
        invariant
            k <= len,
            len == stack@.len(),
            forall|i: int| k <= i < len ==> (#[trigger] stack@[i]).row_idx == row,
        decreases k,
    {
        k -= 1;
    }
    let mut bytes: Vec<u8> = Vec::new();
    let mut i: usize = k;
    while i < len
        invariant
            k <= i <= len,
            len == stack@.len(),
            bytes@ == bytes_from(stack@.take(i as int), k as int),
        decreases len - i,
    {
        proof {
            assert(stack@.take(i + 1).drop_last() =~= stack@.take(i as int));
            assert(stack@.take(i + 1).last() == stack@[i as int]);
        }
        match stack[i].byte {
            Some(b) => {
                bytes.push(b);
            },
            None => {
                assert(bytes@ + Seq::<u8>::empty() =~= bytes@);
            },
        }
        i += 1;
    }
    proof {
        assert(stack@.take(len as int) =~= stack@);
        lemma_row_bytes_from(stack@, row, k as int);
        lemma_bytes_from_len(stack@, k as int);
    }
    bytes
}

impl Parser {
    /// Takes the `n` topmost frames off the lexer stack.
    pub(crate) fn pop_lexer_states(&mut self, n: usize)
        requires
            old(self).wf(),
            n < old(self).stack().len(),
        ensures
            final(self).wf(),
            final(self).frame_kept(old(self)),
            final(self).stack() == old(self).stack().take(old(self).stack().len() - n),
            final(self).rows_kept(old(self), old(self).rows_len()),
            final(self).rows_len() == old(self).rows_len(),
            final(self).infos() == old(self).infos(),
            final(self).captures_view() == old(self).captures_view(),
            final(self).stats_view() == old(self).stats_view(),
            final(self).scratch == old(self).scratch,
            final(self).rows == old(self).rows,
    {
        let keep = self.lexer_stack.len() - n;
        self.lexer_stack.truncate(keep);
        proof {
            assert(self.lexer_stack@ =~= old(self).lexer_stack@.take(keep as int));
            let top = self.lexer_stack@.last();
            assert(top == old(self).lexer_stack@[keep - 1]);
            assert(top.row_idx <= old(self).lexer_stack@[old(self).lexer_stack@.len() - 1].row_idx);
            assert forall|i: int| 0 <= i < old(self).rows@.len() implies #[trigger] self.row_items(i) == old(self).row_items(i) by {}
            assert(self.rows_wf_n(old(self).num_rows_spec())) by {
                assert(old(self).rows_wf_n(old(self).num_rows_spec()));
            }
            self.lemma_rows_wf_fewer(self.num_rows_spec(), old(self).num_rows_spec());
            assert(self.stack_wf());
            assert(self.infos_wf());
        }
    }

    /// The bytes that were fed since the current row began.
    pub(crate) fn curr_row_bytes(&self) -> (r: Vec<u8>)
        requires
            self.wf(),
        ensures
            r@ == self.pending_bytes(),
            r@.len() < self.stack().len(),
    {
        stack_row_bytes(&self.lexer_stack)
    }

    /// Whether bytes were fed since the current row began.
    pub fn has_pending_lexeme_bytes(&self) -> (r: bool)
        requires
            self.wf(),
        ensures
            r == (self.pending_bytes().len() > 0),
    {
        self.curr_row_bytes().len() > 0
    }

    /// Whether input may end here: bytes are pending, and the lexer can end
    /// its lexeme at the end of input.
    pub fn lexer_allows_eos(&self) -> (r: bool)
        requires
            self.wf(),
        ensures
            r == (self.pending_bytes().len() > 0 && self.lexer_view().desc(
                self.top().lexer_state,
            ).allows_eos),
    {
        if self.has_pending_lexeme_bytes() {
            self.lexer.allows_eos(self.lexer_state().lexer_state)
        } else {
            false
        }
    }

    /// Whether every lexeme class of `allowed_lexemes` begins with `bytes`,
    /// and there is such a class.
    pub(crate) fn has_forced_bytes(&self, allowed_lexemes: &LexemeSet, bytes: &Vec<u8>) -> (r: bool)
        requires
            self.wf(),
            allowed_lexemes@.len() == self.grammar_view().num_lexemes(),
        ensures
            r == forced_by_all(self.grammar_view().lexer_spec_view(), allowed_lexemes@, bytes@),
    {
        if allowed_lexemes.is_zero() {
            return false;
        }
        let spec = self.grammar.lexer_spec();
        let n = allowed_lexemes.len();
        let mut lx: usize = 0;
        while lx < n
            invariant
                lx <= n,
                n == allowed_lexemes@.len(),
                n == spec.lexemes@.len(),
                *spec == self.grammar_view().lexer_spec_view(),
                forall|j: int|
                    0 <= j < lx && #[trigger] allowed_lexemes@[j] ==> spec.lexemes@[j].has_forced_bytes_spec(
                        bytes@,
                    ),
            decreases n - lx,
        {
            if allowed_lexemes.get(lx) && !spec.lexemes[lx].has_forced_bytes(bytes) {
                assert(allowed_lexemes@[lx as int]);
                return false;
            }
            lx += 1;
        }
        proof {
            assert(!allowed_lexemes.is_zero_spec());
            let w = choose|w: int| 0 <= w < allowed_lexemes@.len() && allowed_lexemes@[w];
            assert(allowed_lexemes@[w]);
        }
        true
    }

    /// Feeds `bytes` to the lexer from `start`; the states it goes through,
    /// unless a lexeme ends or a byte is refused on the way.
    pub(crate) fn replay_hidden(&self, start: StateID, bytes: &Vec<u8>) -> (r: Option<Vec<StateID>>)
        requires
            self.wf(),
            self.lexer_view().valid_state(start),
        ensures
            r is Some <==> replay(self.lexer_view(), start, bytes@) is Some,
            r matches Some(states) ==> {
                &&& Some(states@) == replay(self.lexer_view(), start, bytes@)
                &&& states@.len() == bytes@.len()
                &&& forall|i: int|
                    0 <= i < states@.len() ==> self.lexer_view().valid_state(#[trigger] states@[i])
            },
    {
        let mut states: Vec<StateID> = Vec::new();
        let mut state = start;
        let mut i: usize = 0;
        proof {
            assert(bytes@.take(0) =~= Seq::<u8>::empty());
        }
        while i < bytes.len()
            invariant
                i <= bytes@.len(),
                self.wf(),
                self.lexer_view().valid_state(start),
                self.lexer_view().valid_state(state),
                Some(states@) == replay(self.lexer_view(), start, bytes@.take(i as int)),
                states@.len() == i,
                state == (if i == 0 {
                    start
                } else {
                    states@.last()
                }),
                forall|k: int|
                    0 <= k < states@.len() ==> self.lexer_view().valid_state(#[trigger] states@[k]),
            decreases bytes@.len() - i,
        {
            proof {
                assert(bytes@.take(i + 1).drop_last() =~= bytes@.take(i as int));
                assert(bytes@.take(i + 1).last() == bytes@[i as int]);
            }
            match self.lexer.advance(state, bytes[i], self.scratch.definitive) {
                LexerResult::State(next, _) => {
                    state = next;
                    states.push(next);
                },
                _ => {
                    proof {
                        Self::lemma_replay_prefix(self.lexer_view(), start, bytes@, i + 1);
                    }
                    return None;
                },
            }
            i += 1;
        }
        proof {
            assert(bytes@.take(bytes@.len() as int) =~= bytes@);
        }
        Some(states)
    }

    /// A replay that fails on a prefix fails on the whole.
    pub(crate) proof fn lemma_replay_prefix(lexer: Lexer, start: StateID, bytes: Seq<u8>, k: int)
        requires
            0 <= k <= bytes.len(),
            replay(lexer, start, bytes.take(k)) is None,
        ensures
            replay(lexer, start, bytes) is None,
        decreases bytes.len() - k,
    {
        if k < bytes.len() {
            assert(bytes.take(k + 1).drop_last() =~= bytes.take(k));
            Self::lemma_replay_prefix(lexer, start, bytes, k + 1);
        } else {
            assert(bytes.take(k) =~= bytes);
        }
    }

    /// Everything but the lexer stack and the statistics is as in `old`.
    pub(crate) open spec fn restacked(&self, old: &Parser) -> bool {
        &&& self.grammar == old.grammar
        &&& self.lexer == old.lexer
        &&& self.scratch == old.scratch
        &&& self.rows == old.rows
        &&& self.row_infos == old.row_infos
        &&& self.captures == old.captures
        &&& self.trie_lexer_stack == old.trie_lexer_stack
        &&& self.last_collapse == old.last_collapse
        &&& self.token_idx == old.token_idx
        &&& self.byte_idx == old.byte_idx
        &&& self.trie_gen_grammar == old.trie_gen_grammar
        &&& self.trie_gen_grammar_accepting == old.trie_gen_grammar_accepting
    }

    /// A parser stays well-formed when the frames above the lowest `keep`
    /// of its lexer stack are replaced by frames in row order whose rows
    /// are well-formed.
    pub(crate) proof fn lemma_restack(&self, old: &Parser, keep: nat)
        requires
            old.wf(),
            self.restacked(old),
            1 <= keep <= old.lexer_stack@.len(),
            keep <= self.lexer_stack@.len(),
            self.lexer_stack@.take(keep as int) == old.lexer_stack@.take(keep as int),
            forall|i: int|
                keep <= i < self.lexer_stack@.len() ==> {
                    &&& self.lexer.valid_state((#[trigger] self.lexer_stack@[i]).lexer_state)
                    &&& self.lexer_stack@[i].row_idx < self.rows@.len()
                    &&& self.lexer_stack@[i].row_idx < 0xffff_ffff
                    &&& self.lexer_stack@[keep - 1].row_idx <= self.lexer_stack@[i].row_idx
                },
            forall|i: int, j: int|
                keep <= i <= j < self.lexer_stack@.len() ==> (#[trigger] self.lexer_stack@[i]).row_idx <= (
                #[trigger] self.lexer_stack@[j]).row_idx,
            self.rows_wf_n((self.lexer_stack@.last().row_idx + 1) as nat),
            self.scratch.definitive ==> self.lexer_stack@.last().row_idx + 1 <= self.row_infos@.len(),
        ensures
            self.wf(),
    {
        let st = self.lexer_stack@;
        let os = old.lexer_stack@;
        assert forall|i: int| 0 <= i < keep implies st[i] == os[i] by {
            assert(st.take(keep as int)[i] == os.take(keep as int)[i]);
        }
        assert forall|i: int, j: int| 0 <= i <= j < st.len() implies (#[trigger] st[i]).row_idx <= (
        #[trigger] st[j]).row_idx by {
            if j < keep {
                assert(os[i].row_idx <= os[j].row_idx);
            } else if i < keep {
                assert(os[i].row_idx <= os[keep - 1].row_idx);
                assert(st[keep - 1].row_idx <= st[j].row_idx);
            }
        }
        assert(self.stack_wf());
        assert(self.infos_wf());
    }

    /// Pushes one frame on the lexer stack: a frame in the current row, or
    /// the first frame of the row that was just made.
    pub(crate) fn push_frame(&mut self, frame: LexerState)
        requires
            old(self).wf(),
            old(self).lexer_view().valid_state(frame.lexer_state),
            frame.row_idx == old(self).top().row_idx || (frame.row_idx == old(self).top().row_idx + 1
                && frame.row_idx < 0xffff_ffff && old(self).row_made(frame.row_idx as nat)),
        ensures
            final(self).wf(),
            final(self).restacked(old(self)),
            final(self).stats == old(self).stats,
            final(self).lexer_stack@ == old(self).lexer_stack@.push(frame),
    {
        self.lexer_stack.push(frame);
        proof {
            let keep = old(self).lexer_stack@.len();
            assert(self.lexer_stack@.take(keep as int) =~= old(self).lexer_stack@.take(keep as int));
            if frame.row_idx == old(self).top().row_idx {
                assert(self.rows_wf_n((frame.row_idx + 1) as nat)) by {
                    assert(old(self).rows_wf_n((frame.row_idx + 1) as nat));
                    assert forall|i: int| 0 <= i < self.rows@.len() implies #[trigger] self.row_items(i)
                        == old(self).row_items(i) by {}
                }
            } else {
                assert(self.rows_wf_n((frame.row_idx + 1) as nat)) by {
                    assert(old(self).rows_wf_n((frame.row_idx + 1) as nat));
                    assert forall|i: int| 0 <= i < self.rows@.len() implies #[trigger] self.row_items(i)
                        == old(self).row_items(i) by {}
                }
            }
            self.lemma_restack(old(self), keep);
        }
    }

    /// The first frame of the row that was just made, for the start state
    /// that the row's lexeme classes and `transition_byte` give. In
    /// definitive mode `lexeme` is recorded as the lexeme that was scanned
    /// from the current row.
    pub(crate) fn lexer_state_for_added_row(&mut self, lexeme: Lexeme, transition_byte: Option<u8>) -> (r:
        LexerState)
        requires
            old(self).wf(),
            old(self).row_made(old(self).num_rows_spec()),
            old(self).num_rows_spec() < 0xffff_ffff,
            lexeme.wf(),
        ensures
            final(self).wf(),
            final(self).row_made(old(self).num_rows_spec()),
            final(self).grammar == old(self).grammar,
            final(self).lexer == old(self).lexer,
            final(self).scratch == old(self).scratch,
            final(self).rows == old(self).rows,
            final(self).captures == old(self).captures,
            final(self).lexer_stack == old(self).lexer_stack,
            final(self).stats == old(self).stats,
            final(self).trie_lexer_stack == old(self).trie_lexer_stack,
            final(self).last_collapse == old(self).last_collapse,
            final(self).token_idx == old(self).token_idx,
            final(self).byte_idx == old(self).byte_idx,
            final(self).trie_gen_grammar == old(self).trie_gen_grammar,
            final(self).trie_gen_grammar_accepting == old(self).trie_gen_grammar_accepting,
            r.row_idx == old(self).num_rows_spec(),
            r.byte == transition_byte,
            r.lexer_state == old(self).lexer_view().start_state_spec(
                old(self).row_allowed(old(self).num_rows_spec() as int),
                transition_byte,
            ),
            old(self).lexer_view().valid_state(r.lexer_state),
            !old(self).definitive() ==> final(self).row_infos == old(self).row_infos,
            old(self).definitive() ==> {
                let n = old(self).num_rows_spec();
                &&& final(self).row_infos@.len() == old(self).row_infos@.len()
                &&& forall|i: int|
                    0 <= i < old(self).row_infos@.len() && i != n - 1 ==> #[trigger] final(self).row_infos@[i] == old(self).row_infos@[i]
                &&& final(self).row_infos@[n - 1].lexeme == lexeme
                &&& final(self).row_infos@[n - 1].start_byte_idx == old(self).row_infos@[n
                    - 1].start_byte_idx
                &&& final(self).row_infos@[n - 1].token_idx_start == old(self).row_infos@[n
                    - 1].token_idx_start
                &&& final(self).row_infos@[n - 1].token_idx_stop == old(self).row_infos@[n
                    - 1].token_idx_stop
                &&& final(self).row_infos@[n - 1].max_tokens == old(self).row_infos@[n - 1].max_tokens
            },
    {
        // The stack does not know the new row yet: the row was made at
        // index `num_rows()`.
        let added_row = self.num_rows();
        let no_hidden = LexerState {
            row_idx: added_row as u32,
            lexer_state: self.lexer.start_state(&self.rows[added_row].allowed_lexemes, transition_byte),
            byte: transition_byte,
        };
        if self.scratch.definitive {
            self.row_infos[added_row - 1].lexeme = lexeme;
        }
        proof {
            assert forall|i: int| 0 <= i < self.rows@.len() implies #[trigger] self.row_items(i) == old(self).row_items(i) by {}
            assert(self.rows_wf_n(old(self).num_rows_spec() + 1)) by {
                assert(old(self).rows_wf_n(old(self).num_rows_spec() + 1));
            }
            assert(self.rows_wf()) by {
                assert(old(self).rows_wf_n(old(self).num_rows_spec()));
            }
            assert(self.stack_wf());
            assert(self.infos_wf()) by {
                assert forall|i: int| 0 <= i < self.row_infos@.len() implies (
                #[trigger] self.row_infos@[i]).lexeme.wf() by {
                    if i != added_row - 1 {
                        assert(self.row_infos@[i] == old(self).row_infos@[i]);
                    }
                }
            }
        }
        no_hidden
    }

    /// Restarts the lexer after a lexeme with hidden bytes was scanned into
    /// the row that was just made: the hidden bytes belong to what follows
    /// the lexeme. Where every lexeme class that the new row allows begins
    /// with the hidden bytes, they are fed to the lexer at once, in place of
    /// the frames that they had in the old row, in either mode. Otherwise the
    /// lexer is left at the start of the new row, and during speculation in
    /// the dead state, so that nothing is tried beyond this point.
    pub(crate) fn handle_hidden_bytes(&mut self, no_hidden: LexerState, hidden: &Vec<u8>)
        requires
            old(self).wf(),
            old(self).row_made(old(self).num_rows_spec()),
            old(self).num_rows_spec() < 0xffff_ffff,
            no_hidden.row_idx == old(self).num_rows_spec(),
            1 <= hidden@.len() <= old(self).stack().len(),
            !old(self).lexer_view().greedy_spec(),
        ensures
            final(self).wf(),
            final(self).restacked(old(self)),
            final(self).counts_kept(old(self)),
            final(self).stats == (ParserStats {
                hidden_bytes: if hidden_replays(
                    old(self).lexer_view(),
                    old(self).grammar_view().lexer_spec_view(),
                    old(self).row_allowed(old(self).num_rows_spec() as int),
                    hidden@,
                ) {
                    old(self).stats.hidden_bytes.wrapping_add(hidden@.len() as usize)
                } else {
                    old(self).stats.hidden_bytes
                },
                ..old(self).stats
            }),
            final(self).lexer_stack@ == crate::earley::parser::step::hidden_stack(
                old(self).stack(),
                old(self).lexer_view(),
                old(self).grammar_view().lexer_spec_view(),
                old(self).row_allowed(old(self).num_rows_spec() as int),
                hidden@,
                old(self).num_rows_spec(),
                old(self).definitive(),
            ),
    {
        let added_row = self.num_rows();
        let forced = self.has_forced_bytes(&self.rows[added_row].allowed_lexemes, hidden);
        let start = self.lexer.start_state(&self.rows[added_row].allowed_lexemes, None);
        let replayed = if forced {
            self.replay_hidden(start, hidden)
        } else {
            None
        };
        let ghost n = old(self).num_rows_spec();
        match replayed {
            Some(states) => {
                // The bytes are forced: the lexer moves over them, and their
                // frames take the place of the topmost frames.
                let keep = self.lexer_stack.len() - (hidden.len() - 1);
                self.lexer_stack.truncate(keep);
                self.stats.hidden_bytes = self.stats.hidden_bytes.wrapping_add(hidden.len());
                let mut i: usize = 0;
                proof {
                    assert(self.lexer_stack@ =~= old(self).lexer_stack@.take(keep as int));
                }
                while i < hidden.len()
                    invariant
                        i <= hidden@.len(),
                        states@.len() == hidden@.len(),
                        added_row == n,
                        n < 0xffff_ffff,
                        self.restacked(old(self)),
                        self.counts_kept(old(self)),
                        self.stats == (ParserStats {
                            hidden_bytes: old(self).stats.hidden_bytes.wrapping_add(hidden@.len() as usize),
                            ..old(self).stats
                        }),
                        self.lexer_stack@ == old(self).lexer_stack@.take(keep as int) + Seq::new(
                            i as nat,
                            |k: int|
                                LexerState {
                                    row_idx: n as u32,
                                    lexer_state: states@[k],
                                    byte: Some(hidden@[k]),
                                },
                        ),
                    decreases hidden@.len() - i,
                {
                    self.lexer_stack.push(
                        LexerState {
                            row_idx: added_row as u32,
                            lexer_state: states[i],
                            byte: Some(hidden[i]),
                        },
                    );
                    proof {
                        assert(self.lexer_stack@ =~= old(self).lexer_stack@.take(keep as int) + Seq::new(
                            (i + 1) as nat,
                            |k: int|
                                LexerState {
                                    row_idx: n as u32,
                                    lexer_state: states@[k],
                                    byte: Some(hidden@[k]),
                                },
                        ));
                    }
                    i += 1;
                }
                proof {
                    assert(self.lexer_stack@.take(keep as int) =~= old(self).lexer_stack@.take(keep as int));
                    assert forall|a: int| 0 <= a < self.rows@.len() implies #[trigger] self.row_items(a)
                        == old(self).row_items(a) by {}
                    assert(self.rows_wf_n(n + 1)) by {
                        assert(old(self).rows_wf_n(n + 1));
                    }
                    assert(self.lexer_stack@.last().row_idx == n);
                    assert forall|a: int| keep <= a < self.lexer_stack@.len() implies {
                        &&& self.lexer.valid_state((#[trigger] self.lexer_stack@[a]).lexer_state)
                        &&& self.lexer_stack@[a].row_idx < self.rows@.len()
                        &&& self.lexer_stack@[a].row_idx < 0xffff_ffff
                        &&& self.lexer_stack@[keep - 1].row_idx <= self.lexer_stack@[a].row_idx
                    } by {
                        assert(self.lexer_stack@[a].lexer_state == states@[a - keep]);
                        assert(self.lexer_stack@[keep - 1] == old(self).lexer_stack@[keep - 1]);
                        assert(old(self).lexer_stack@[keep - 1].row_idx <= old(self).top().row_idx);
                    }
                    self.lemma_restack(old(self), keep as nat);
                }
            },
            None => {
                let frame = LexerState {
                    row_idx: no_hidden.row_idx,
                    lexer_state: if self.scratch.definitive {
                        // The lexer starts over in the new row.
                        start
                    } else {
                        // Nothing more is tried in this branch.
                        self.lexer.a_dead_state()
                    },
                    byte: None,
                };
                proof {
                    assert(self.lexer_view().valid_state(StateID::dead_spec()));
                }
                self.push_frame(frame);
            },
        }
    }

    /// A scan that made no row changed nothing, and no item waited for the
    /// lexeme.
    pub proof fn lemma_scan_failed(&self, old: &Parser, pre: PreLexeme, visible: Seq<u8>, hidden: Seq<u8>)
        requires
            old.wf(),
            pre.idx != LexemeIdx::skip_spec() ==> self.pushed_row(
                old,
                old.seeds_for(pre.idx),
                0,
                visible,
                hidden,
                false,
            ),
            pre.idx == LexemeIdx::skip_spec() ==> self.skipped_row(old, false),
        ensures
            !old.scans(pre),
            self.unchanged(old),
    {
        let n = old.num_rows_spec();
        assert forall|i: int| 0 <= i < n implies #[trigger] self.row_items(i) == old.row_items(i)
            && self.row_allowed(i) == old.row_allowed(i) by {
            assert(self.rows@[i] == old.rows@[i]);
        }
        if pre.idx != LexemeIdx::skip_spec() {
            let row = self.work_row();
            assert(row.skip(0) =~= row);
            assert(self.captures_view() =~= old.captures_view());
        }
    }

    /// A scan that made a row had an item that waited for the lexeme.
    pub proof fn lemma_scan_succeeded(&self, old: &Parser, pre: PreLexeme, visible: Seq<u8>, hidden: Seq<u8>)
        requires
            old.wf(),
            pre.idx != LexemeIdx::skip_spec() ==> self.pushed_row(
                old,
                old.seeds_for(pre.idx),
                0,
                visible,
                hidden,
                true,
            ),
            pre.idx == LexemeIdx::skip_spec() ==> self.skipped_row(old, true),
        ensures
            old.seeds_for(pre.idx).len() > 0,
            self.row_made(old.num_rows_spec()),
    {
        if pre.idx != LexemeIdx::skip_spec() {
            let row = self.work_row();
            if old.seeds_for(pre.idx).len() == 0 {
                assert(old.seeds_for(pre.idx) =~= Seq::<Item>::empty());
                lemma_no_seeds(self.grammar_view(), old.live_rows(), row[0]);
            }
        }
    }

    /// After a row was made and the lexeme that led to it was recorded, the
    /// parser is as `row_scanned` says.
    pub(crate) proof fn lemma_row_scanned(
        &self,
        made: &Parser,
        old: &Parser,
        seeds: Seq<Item>,
        copy: bool,
        lexeme: Lexeme,
    )
        requires
            old.wf(),
            lexeme.wf(),
            !copy ==> made.pushed_row(
                old,
                seeds,
                0,
                lexeme.visible_bytes_spec(),
                lexeme.hidden_bytes_spec(),
                true,
            ),
            copy ==> made.skipped_row(old, true),
            self.rows == made.rows,
            self.scratch == made.scratch,
            self.captures == made.captures,
            self.grammar == made.grammar,
            self.row_made(old.num_rows_spec()),
            !old.definitive() ==> self.row_infos == made.row_infos,
            old.definitive() ==> {
                let n = old.num_rows_spec();
                &&& self.row_infos@.len() == made.row_infos@.len()
                &&& forall|i: int|
                    0 <= i < made.row_infos@.len() && i != n - 1 ==> #[trigger] self.row_infos@[i]
                        == made.row_infos@[i]
                &&& self.row_infos@[n - 1].lexeme == lexeme
                &&& self.row_infos@[n - 1].start_byte_idx == made.row_infos@[n - 1].start_byte_idx
                &&& self.row_infos@[n - 1].token_idx_start == made.row_infos@[n - 1].token_idx_start
                &&& self.row_infos@[n - 1].token_idx_stop == made.row_infos@[n - 1].token_idx_stop
                &&& self.row_infos@[n - 1].max_tokens == made.row_infos@[n - 1].max_tokens
            },
        ensures
            self.row_scanned(old, seeds, copy, lexeme.idx, lexeme.bytes@, lexeme.hidden_len),
    {
        let n = old.num_rows_spec();
        assert forall|i: int| 0 <= i < self.rows@.len() implies #[trigger] self.row_items(i)
            == made.row_items(i) by {}
        assert forall|i: int| 0 <= i < n implies #[trigger] self.row_items(i) == old.row_items(i)
            && self.row_allowed(i) == old.row_allowed(i) by {
            assert(made.rows@[i] == old.rows@[i]);
            assert(made.row_items(i) == old.row_items(i));
        }
        let row = self.row_items(n as int);
        let g = old.grammar_view();
        assert(row.skip(0) =~= row);
        assert(self.row_allowed(n as int) == made.row_allowed(n as int));
        if !copy {
            assert(made.row_items(n as int) == made.work_row());
            assert forall|lx: int| 0 <= lx < g.num_lexemes() implies #[trigger] self.row_allowed(
                n as int,
            )[lx] == crate::earley::rowbuild::allowed_of(g, row, 0, lx) by {
                assert(made.row_allowed(n as int)[lx] == crate::earley::rowbuild::allowed_of(
                    g,
                    made.work_row(),
                    0,
                    lx,
                ));
            }
        }
        if old.definitive() {
            assert forall|i: int| 0 <= i < n - 1 implies #[trigger] self.infos()[i] == old.infos()[i] by {
                assert(made.infos().take(n as int)[i] == old.infos().take(n as int)[i]);
            }
            assert(made.infos().take(n as int)[n - 1] == old.infos().take(n as int)[n - 1]);
        }
    }

    /// After a scan made a row and the scanned lexeme was recorded, the
    /// parser is as `scanned` says.
    pub(crate) proof fn lemma_scanned(
        &self,
        made: &Parser,
        old: &Parser,
        pre: PreLexeme,
        lexeme: Lexeme,
    )
        requires
            old.wf(),
            old.fits(pre),
            lexeme.wf(),
            lexeme.idx == pre.idx,
            old.definitive() ==> lexeme.bytes@ == old.lexeme_bytes(pre) && lexeme.hidden_len
                == pre.hidden_len,
            !old.definitive() ==> lexeme.bytes@.len() == 0 && lexeme.hidden_len == 0,
            pre.idx != LexemeIdx::skip_spec() ==> made.pushed_row(
                old,
                old.seeds_for(pre.idx),
                0,
                lexeme.visible_bytes_spec(),
                lexeme.hidden_bytes_spec(),
                true,
            ),
            pre.idx == LexemeIdx::skip_spec() ==> made.skipped_row(old, true),
            self.rows == made.rows,
            self.scratch == made.scratch,
            self.captures == made.captures,
            self.grammar == made.grammar,
            self.row_made(old.num_rows_spec()),
            !old.definitive() ==> self.row_infos == made.row_infos,
            old.definitive() ==> {
                let n = old.num_rows_spec();
                &&& self.row_infos@.len() == made.row_infos@.len()
                &&& forall|i: int|
                    0 <= i < made.row_infos@.len() && i != n - 1 ==> #[trigger] self.row_infos@[i]
                        == made.row_infos@[i]
                &&& self.row_infos@[n - 1].lexeme == lexeme
                &&& self.row_infos@[n - 1].start_byte_idx == made.row_infos@[n - 1].start_byte_idx
                &&& self.row_infos@[n - 1].token_idx_start == made.row_infos@[n - 1].token_idx_start
                &&& self.row_infos@[n - 1].token_idx_stop == made.row_infos@[n - 1].token_idx_stop
                &&& self.row_infos@[n - 1].max_tokens == made.row_infos@[n - 1].max_tokens
            },
        ensures
            self.scanned(old, pre),
    {
        self.lemma_row_scanned(
            made,
            old,
            old.seeds_for(pre.idx),
            pre.idx == LexemeIdx::skip_spec(),
            lexeme,
        );
    }

    /// Scans `second_lexeme`, a lexeme of one byte that was found at the
    /// start of the row that was just made. The first lexeme is accepted only
    /// together with the second: where the second cannot follow, the lexer
    /// stack is left as it was before the first.
    pub(crate) fn advance_second(
        &mut self,
        no_hidden: LexerState,
        second_lexeme: PreLexeme,
        Ghost(before): Ghost<Parser>,
    ) -> (r: bool)
        requires
            old(self).wf(),
            before.wf(),
            old(self).row_made(old(self).num_rows_spec()),
            old(self).num_rows_spec() + 2 <= 0xffff_ffff,
            no_hidden.row_idx == old(self).num_rows_spec(),
            no_hidden.byte is None,
            old(self).lexer_view().valid_state(no_hidden.lexer_state),
            old(self).stack() == before.stack(),
            old(self).frame_kept(&before),
            !second_lexeme.byte_next_row,
            second_lexeme.hidden_len == 0,
        ensures
            final(self).wf(),
            final(self).counts_kept(old(self)),
            final(self).row_items(old(self).num_rows_spec() as int) == old(self).row_items(
                old(self).num_rows_spec() as int,
            ),
            final(self).stats == (if old(self).num_rows_spec() + 3 > 0xffff_ffff {
                old(self).stats
            } else if r {
                with_row(old(self).stats, final(self).row_items(old(self).num_rows_spec() as int + 1).len())
            } else if second_lexeme.idx == LexemeIdx::skip_spec() {
                old(self).stats
            } else {
                with_empty_row(old(self).stats)
            }),
            exists|mid: Parser|
                {
                    &&& #[trigger] mid.restacked(old(self))
                    &&& mid.wf()
                    &&& mid.stack() == before.stack().push(no_hidden)
                    &&& final(self).second_scanned(&mid, &before, second_lexeme, r)
                },
        decreases 3nat,
    {
        let ghost n = old(self).num_rows_spec();
        self.push_frame(no_hidden);
        let ghost mid = *self;
        // The second lexeme is a single byte and ends where it began: it
        // goes no deeper than this.
        let r = self.advance_parser(second_lexeme);
        let ghost inner = *self;
        if r {
            let new_top = self.lexer_stack.pop().unwrap();
            let len = self.lexer_stack.len();
            self.lexer_stack[len - 1] = new_top;
            proof {
                let keep = old(self).lexer_stack@.len();
                assert(self.lexer_stack@ =~= old(self).lexer_stack@.push(new_top));
                assert(self.lexer_stack@.take(keep as int) =~= inner.lexer_stack@.take(keep as int));
                assert forall|i: int| 0 <= i < self.rows@.len() implies #[trigger] self.row_items(i)
                    == inner.row_items(i) by {}
                assert(self.rows_wf_n((new_top.row_idx + 1) as nat)) by {
                    assert(inner.rows_wf_n((new_top.row_idx + 1) as nat));
                }
                self.lemma_restack(&inner, keep);
                assert(transition_byte(second_lexeme) is None);
                assert(inner.advanced(&mid, second_lexeme, true));
                assert(mid.scans(second_lexeme));
                assert(inner.scanned(&mid, second_lexeme));
                self.lemma_restacked_scanned(&inner, &mid, second_lexeme);
                assert(self.scanned(&mid, second_lexeme));
                assert(self.second_scanned(&mid, &before, second_lexeme, r));
            }
            true
        } else {
            self.lexer_stack.pop();
            proof {
                assert(transition_byte(second_lexeme) is None);
                assert(inner.advanced(&mid, second_lexeme, false));
                assert(!mid.scans(second_lexeme));
                assert(inner.unchanged(&mid));
                assert forall|i: int| 0 <= i < mid.num_rows_spec() implies #[trigger] self.row_items(i)
                    == mid.row_items(i) && self.row_allowed(i) == mid.row_allowed(i) by {
                    assert(inner.row_items(i) == mid.row_items(i));
                }
                assert(self.lexer_stack@ =~= old(self).lexer_stack@);
                assert forall|i: int| 0 <= i < self.rows@.len() implies #[trigger] self.row_items(i)
                    == inner.row_items(i) by {}
                assert(self.rows_wf_n(n)) by {
                    assert(inner.rows_wf_n(n + 1));
                    self.lemma_rows_wf_fewer(n, n + 1);
                }
                assert(self.stack_wf());
                assert(self.infos_wf());
                assert(self.rows_len() == mid.rows_len());
                assert(self.rows_kept(&mid, mid.num_rows_spec()));
                assert(self.infos() == mid.infos());
                assert(self.captures_view() == mid.captures_view());
                assert(self.frame_kept(&mid));
                assert(self.second_scanned(&mid, &before, second_lexeme, r));
            }
            false
        }
    }

    /// Hands a lexeme that the lexer reported to the parser: the lexeme is
    /// scanned into a new row, and the lexer is set up for what follows it.
    /// Returns false where the lexeme cannot follow.
    pub(crate) fn advance_parser(&mut self, pre_lexeme: PreLexeme) -> (r: bool)
        requires
            old(self).wf(),
            pre_lexeme.hidden_len > 0 ==> !old(self).lexer_view().greedy_spec(),
        ensures
            final(self).wf(),
            final(self).counts_kept(old(self)),
            final(self).advanced(old(self), pre_lexeme, r),
            final(self).advance_counted(old(self), old(self).stats, pre_lexeme, r),
        decreases
                (if pre_lexeme.byte_next_row {
                    5nat
                } else {
                    2nat
                }),
    {
        let transition_byte = if pre_lexeme.byte_next_row {
            pre_lexeme.byte
        } else {
            None
        };
        let lexeme_byte = if pre_lexeme.byte_next_row {
            None
        } else {
            pre_lexeme.byte
        };
        if self.num_rows() > 0xffff_ffff - 2 {
            return false;
        }
        let mut bytes = self.curr_row_bytes();
        match lexeme_byte {
            Some(b) => {
                bytes.push(b);
            },
            None => {
                assert(bytes@ + Seq::<u8>::empty() =~= bytes@);
            },
        }
        proof {
            assert(bytes@ =~= old(self).lexeme_bytes(pre_lexeme));
        }
        if pre_lexeme.hidden_len > bytes.len() {
            return false;
        }
        let hidden = tail_bytes(&bytes, pre_lexeme.hidden_len);
        let lexeme = if self.scratch.definitive {
            Lexeme::new(pre_lexeme.idx, bytes, pre_lexeme.hidden_len)
        } else {
            Lexeme::just_idx(pre_lexeme.idx)
        };
        let ghost visible_view = lexeme.visible_bytes_spec();
        let ghost hidden_view = lexeme.hidden_bytes_spec();
        let ghost lexeme_view = lexeme;
        let scan_res = if lexeme.idx == LexemeIdx::skip() {
            self.scan_skip_lexeme(&lexeme)
        } else {
            self.scan(&lexeme)
        };
        if !scan_res {
            proof {
                self.lemma_scan_failed(old(self), pre_lexeme, visible_view, hidden_view);
            }
            return false;
        }
        proof {
            self.lemma_scan_succeeded(old(self), pre_lexeme, visible_view, hidden_view);
        }
        let ghost made = *self;
        let ghost n = old(self).num_rows_spec();
        let no_hidden = self.lexer_state_for_added_row(lexeme, transition_byte);
        proof {
            self.lemma_scanned(&made, old(self), pre_lexeme, lexeme_view);
            assert(self.row_allowed(n as int) == made.row_allowed(n as int));
        }
        self.finish_advance(pre_lexeme, no_hidden, &hidden, Ghost(*old(self)))
    }

    /// Sets up the lexer stack after the lexeme of `pre_lexeme` was scanned
    /// and recorded.
    pub(crate) fn finish_advance(
        &mut self,
        pre_lexeme: PreLexeme,
        no_hidden: LexerState,
        hidden: &Vec<u8>,
        Ghost(before): Ghost<Parser>,
    ) -> (r: bool)
        requires
            old(self).wf(),
            before.wf(),
            before.scans(pre_lexeme),
            old(self).scanned(&before, pre_lexeme),
            old(self).row_made(old(self).num_rows_spec()),
            old(self).num_rows_spec() == before.num_rows_spec(),
            old(self).stack() == before.stack(),
            old(self).frame_kept(&before),
            hidden@ == before.hidden_bytes_of(pre_lexeme),
            no_hidden.row_idx == before.num_rows_spec(),
            no_hidden.byte == transition_byte(pre_lexeme),
            no_hidden.lexer_state == old(self).added_state(&before, pre_lexeme),
            old(self).lexer_view().valid_state(no_hidden.lexer_state),
            pre_lexeme.hidden_len > 0 ==> !old(self).lexer_view().greedy_spec(),
            old(self).stats == with_row(
                before.stats,
                old(self).row_items(before.num_rows_spec() as int).len(),
            ),
        ensures
            final(self).wf(),
            final(self).counts_kept(old(self)),
            final(self).advanced(&before, pre_lexeme, r),
            final(self).advance_counted(&before, before.stats, pre_lexeme, r),
        decreases
                (if pre_lexeme.byte_next_row {
                    4nat
                } else {
                    1nat
                }),
    {
        let ghost n = before.num_rows_spec();
        let ghost recorded = *self;
        proof {
            lemma_bytes_from_len(before.stack(), 0);
        }
        if pre_lexeme.hidden_len > 0 {
            proof {
                before.lemma_pending_len();
            }
            self.handle_hidden_bytes(no_hidden, hidden);
            proof {
                self.lemma_restacked_scanned(&recorded, &before, pre_lexeme);
            }
            return true;
        }
        if pre_lexeme.byte_next_row && no_hidden.lexer_state.is_dead() {
            return false;
        }
        match no_hidden.byte {
            Some(b) => {
                match self.lexer.check_for_single_byte_lexeme(no_hidden.lexer_state, b) {
                    Some(second_lexeme) => {
                        let mut first = no_hidden;
                        first.byte = None;
                        let r = self.advance_second(first, second_lexeme, Ghost(before));
                        proof {
                            let mid = choose|mid: Parser|
                                {
                                    &&& #[trigger] mid.restacked(&recorded)
                                    &&& mid.wf()
                                    &&& mid.stack() == before.stack().push(first)
                                    &&& self.second_scanned(&mid, &before, second_lexeme, r)
                                };
                            mid.lemma_restacked_scanned(&recorded, &before, pre_lexeme);
                            assert(mid.num_rows_spec() == n + 1);
                            assert(self.row_items(n as int) == mid.row_items(n as int));
                            assert(self.row_allowed(n as int) == mid.row_allowed(n as int));
                            assert(mid.scanned(&before, pre_lexeme));
                        }
                        return r;
                    },
                    None => {},
                }
            },
            None => {},
        }
        self.push_frame(no_hidden);
        proof {
            self.lemma_restacked_scanned(&recorded, &before, pre_lexeme);
        }
        true
    }

    /// The bytes of the current row are fewer than the frames of the stack.
    pub(crate) proof fn lemma_pending_len(&self)
        requires
            self.wf(),
        ensures
            self.pending_bytes().len() < self.stack().len(),
    {
        let st = self.lexer_stack@;
        let row = st.last().row_idx;
        let k = Self::row_start_of(st, row);
        Self::lemma_row_start_of(st, row);
        lemma_row_bytes_from(st, row, k);
        lemma_bytes_from_len(st, k);
    }

    /// The position of the lowest of the topmost frames of `stack` that
    /// belong to row `row`.
    pub(crate) open spec fn row_start_of(stack: Seq<LexerState>, row: u32) -> int
        decreases stack.len(),
    {
        if stack.len() == 0 || stack.last().row_idx != row {
            stack.len() as int
        } else {
            Self::row_start_of(stack.drop_last(), row)
        }
    }

    pub(crate) proof fn lemma_row_start_of(stack: Seq<LexerState>, row: u32)
        ensures
            0 <= Self::row_start_of(stack, row) <= stack.len(),
            forall|i: int|
                Self::row_start_of(stack, row) <= i < stack.len() ==> (#[trigger] stack[i]).row_idx == row,
            Self::row_start_of(stack, row) > 0 ==> stack[Self::row_start_of(stack, row) - 1].row_idx
                != row,
        decreases stack.len(),
    {
        if stack.len() > 0 && stack.last().row_idx == row {
            let rest = stack.drop_last();
            Self::lemma_row_start_of(rest, row);
            let k = Self::row_start_of(rest, row);
            assert forall|i: int| k <= i < stack.len() implies (#[trigger] stack[i]).row_idx == row by {
                if i < rest.len() {
                    assert(rest[i] == stack[i]);
                }
            }
            if k > 0 {
                assert(rest[k - 1] == stack[k - 1]);
            }
        }
    }

    /// What was scanned stays scanned when only the lexer stack changes.
    pub(crate) proof fn lemma_restacked_row_scanned(
        &self,
        recorded: &Parser,
        before: &Parser,
        seeds: Seq<Item>,
        copy: bool,
        idx: LexemeIdx,
        bytes: Seq<u8>,
        hidden_len: usize,
    )
        requires
            self.restacked(recorded),
            recorded.row_scanned(before, seeds, copy, idx, bytes, hidden_len),
            recorded.frame_kept(before),
        ensures
            self.row_scanned(before, seeds, copy, idx, bytes, hidden_len),
            self.frame_kept(before),
            self.row_allowed(before.num_rows_spec() as int) == recorded.row_allowed(
                before.num_rows_spec() as int,
            ),
    {
        let n = before.num_rows_spec();
        assert forall|i: int| #[trigger] self.row_items(i) == recorded.row_items(i) by {}
        assert forall|i: int| #[trigger] self.row_allowed(i) == recorded.row_allowed(i) by {}
        assert(self.infos() == recorded.infos());
        assert(self.captures_view() == recorded.captures_view());
        assert forall|i: int| 0 <= i < n implies #[trigger] self.row_items(i) == before.row_items(i)
            && self.row_allowed(i) == before.row_allowed(i) by {
            assert(recorded.row_items(i) == before.row_items(i));
        }
        assert(self.rows_kept(before, n));
        if !copy {
            let g = before.grammar_view();
            let row = self.row_items(n as int);
            assert forall|lx: int| 0 <= lx < g.num_lexemes() implies #[trigger] self.row_allowed(
                n as int,
            )[lx] == crate::earley::rowbuild::allowed_of(g, row, 0, lx) by {
                assert(recorded.row_allowed(n as int)[lx] == crate::earley::rowbuild::allowed_of(
                    g,
                    row,
                    0,
                    lx,
                ));
            }
        }
        if before.definitive() {
            assert forall|i: int| 0 <= i < n - 1 implies #[trigger] self.infos()[i] == before.infos()[i] by {
                assert(recorded.infos()[i] == before.infos()[i]);
            }
        }
    }

    /// What was scanned stays scanned when only the lexer stack changes.
    pub(crate) proof fn lemma_restacked_scanned(&self, recorded: &Parser, before: &Parser, pre: PreLexeme)
        requires
            self.restacked(recorded),
            recorded.scanned(before, pre),
            recorded.frame_kept(before),
        ensures
            self.scanned(before, pre),
            self.frame_kept(before),
            self.row_allowed(before.num_rows_spec() as int) == recorded.row_allowed(
                before.num_rows_spec() as int,
            ),
            self.added_state(before, pre) == recorded.added_state(before, pre),
    {
        self.lemma_restacked_row_scanned(
            recorded,
            before,
            before.seeds_for(pre.idx),
            pre.idx == LexemeIdx::skip_spec(),
            pre.idx,
            before.lexeme_bytes(pre),
            pre.hidden_len,
        );
    }
}

} // verus!
