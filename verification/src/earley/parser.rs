//! The parser: Earley rows over lexemes, a stack of lexer states over bytes,
//! and the bookkeeping that lets hypothetical bytes be tried and taken back.

use vstd::prelude::*;
use std::sync::Arc;

pub mod advance;
pub mod agree;
pub mod copy;
pub mod feed;
pub mod gen;
pub mod init;
pub mod laws;
pub mod query;
pub mod rows;
pub mod step;
pub mod tokens;
pub mod twin;

use crate::earley::closure::closed_from;
use crate::earley::parser::step::slots_after;
use crate::earley::closure::is_closed_run;
use crate::earley::closure::item_valid;
use crate::earley::closure::prev_valid;
use crate::earley::closure::row_inv;
use crate::earley::closure::rows_view;
use crate::earley::grammar::CGrammar;
use crate::earley::grammar::CSymIdx;
use crate::earley::item::Item;
use crate::earley::item::Row;
use crate::earley::item::Scratch;
use crate::earley::lexer::Lexer;
use crate::earley::lexer::LexerError;
use crate::earley::lexer::StateID;
use crate::earley::lexerspec::Lexeme;
use crate::earley::lexerspec::LexemeIdx;
use crate::earley::rowbuild::capture_view;
use crate::earley::rowbuild::captures_seq;
use crate::earley::rowbuild::row_budgets;
use crate::earley::rowbuild::row_captures;
use crate::earley::rowbuild::allowed_of;

verus! {

/// Counters kept by the parser while it runs.
#[derive(Debug, Clone, Copy, PartialEq, Eq, Structural)]
pub struct ParserStats {
    pub rows: usize,
    pub definitive_bytes: usize,
    pub lexer_ops: usize,
    pub all_items: usize,
    pub hidden_bytes: usize,
}

impl ParserStats {
    pub fn new() -> (r: ParserStats)
        ensures
            r == (ParserStats { rows: 0, definitive_bytes: 0, lexer_ops: 0, all_items: 0, hidden_bytes: 0 }),
    {
        ParserStats { rows: 0, definitive_bytes: 0, lexer_ops: 0, all_items: 0, hidden_bytes: 0 }
    }

    /// The counts that were added since `previous` was taken.
    pub fn delta(&self, previous: &ParserStats) -> (r: ParserStats)
        requires
            previous.rows <= self.rows,
            previous.definitive_bytes <= self.definitive_bytes,
            previous.lexer_ops <= self.lexer_ops,
            previous.all_items <= self.all_items,
            previous.hidden_bytes <= self.hidden_bytes,
        ensures
            r.rows == self.rows - previous.rows,
            r.definitive_bytes == self.definitive_bytes - previous.definitive_bytes,
            r.lexer_ops == self.lexer_ops - previous.lexer_ops,
            r.all_items == self.all_items - previous.all_items,
            r.hidden_bytes == self.hidden_bytes - previous.hidden_bytes,
    {
        ParserStats {
            rows: self.rows - previous.rows,
            definitive_bytes: self.definitive_bytes - previous.definitive_bytes,
            lexer_ops: self.lexer_ops - previous.lexer_ops,
            all_items: self.all_items - previous.all_items,
            hidden_bytes: self.hidden_bytes - previous.hidden_bytes,
        }
    }
}

impl Default for ParserStats {
    fn default() -> (r: ParserStats)
        ensures
            r == (ParserStats { rows: 0, definitive_bytes: 0, lexer_ops: 0, all_items: 0, hidden_bytes: 0 }),
    {
        ParserStats::new()
    }
}

/// Counters of a recognizer that works on bytes alone, without a lexer.
#[derive(Debug, Clone, Copy, PartialEq, Eq, Structural)]
pub struct Stats {
    pub rows: usize,
    pub empty_rows: usize,
    pub nontrivial_scans: usize,
    pub scan_items: usize,
    pub all_items: usize,
}

impl Default for Stats {
    fn default() -> (r: Stats)
        ensures
            r == (Stats { rows: 0, empty_rows: 0, nontrivial_scans: 0, scan_items: 0, all_items: 0 }),
    {
        Stats { rows: 0, empty_rows: 0, nontrivial_scans: 0, scan_items: 0, all_items: 0 }
    }
}

/// Why a parser could not be made.
#[derive(Debug, Clone, Copy, PartialEq, Eq, Structural)]
pub enum ParserError {
    /// The grammar's lexer cannot be used.
    Lexer(LexerError),
    /// The start symbol has no rule, so that the first row is empty.
    InitialPushFailed,
}

impl ParserError {
    /// The error in words.
    pub fn message(&self) -> (r: &'static str)
        ensures
            r@ == (match *self {
                ParserError::Lexer(LexerError::InvalidTables) => "invalid lexer tables"@,
                ParserError::Lexer(LexerError::NoLexemes) => "lexer without lexemes"@,
                ParserError::InitialPushFailed => "Internal error: initial push failed"@,
            }),
    {
        match self {
            ParserError::Lexer(LexerError::InvalidTables) => "invalid lexer tables",
            ParserError::Lexer(LexerError::NoLexemes) => "lexer without lexemes",
            ParserError::InitialPushFailed => "Internal error: initial push failed",
        }
    }
}

/// One frame of the lexer stack: the row that is current, the lexer state
/// after the frame's byte, and the byte. A frame without a byte was made by
/// the parser itself, at a start or restart of the lexer.
#[derive(Debug, Clone, Copy)]
pub struct LexerState {
    pub row_idx: u32,
    pub lexer_state: StateID,
    pub byte: Option<u8>,
}

/// What is kept of a committed row beside its items.
#[derive(Debug)]
pub struct RowInfo {
    /// Number of visible bytes before this row's lexeme.
    pub start_byte_idx: usize,
    /// The lexeme that was scanned from this row, once there is one.
    pub lexeme: Lexeme,
    pub token_idx_start: usize,
    pub token_idx_stop: usize,
    /// Token budgets of the lexeme classes that may follow the row. Each
    /// entry is one occurrence of a class with a budget; the budget of a
    /// class is the least of its entries.
    pub max_tokens: Vec<(LexemeIdx, usize)>,
}

/// The least budget that `list` holds for class `lx`; `usize::MAX` where it
/// holds none.
pub open spec fn budget_of(list: Seq<(LexemeIdx, usize)>, lx: LexemeIdx) -> usize
    decreases list.len(),
{
    if list.len() == 0 {
        usize::MAX
    } else {
        let rest = budget_of(list.drop_last(), lx);
        if list.last().0 == lx && list.last().1 < rest {
            list.last().1
        } else {
            rest
        }
    }
}

impl RowInfo {
    /// Widens the row's token window to take in token `idx`.
    pub fn apply_token_idx(&mut self, idx: usize)
        ensures
            final(self).token_idx_start == (if idx < old(self).token_idx_start {
                idx
            } else {
                old(self).token_idx_start
            }),
            final(self).token_idx_stop == (if idx > old(self).token_idx_stop {
                idx
            } else {
                old(self).token_idx_stop
            }),
            final(self).start_byte_idx == old(self).start_byte_idx,
            final(self).lexeme == old(self).lexeme,
            final(self).max_tokens == old(self).max_tokens,
    {
        if idx < self.token_idx_start {
            self.token_idx_start = idx;
        }
        if idx > self.token_idx_stop {
            self.token_idx_stop = idx;
        }
    }

    /// The token budget of class `lx` after this row.
    pub fn max_tokens_for(&self, lx: LexemeIdx) -> (r: usize)
        ensures
            r == budget_of(self.max_tokens@, lx),
    {
        let mut best: usize = usize::MAX;
        let mut i: usize = 0;
        while i < self.max_tokens.len()
            invariant
                i <= self.max_tokens@.len(),
                best == budget_of(self.max_tokens@.take(i as int), lx),
            decreases self.max_tokens@.len() - i,
        {
            proof {
                assert(self.max_tokens@.take(i + 1).drop_last() =~= self.max_tokens@.take(i as int));
            }
            let entry = self.max_tokens[i];
            if entry.0 == lx && entry.1 < best {
                best = entry.1;
            }
            i += 1;
        }
        proof {
            assert(self.max_tokens@.take(self.max_tokens@.len() as int) =~= self.max_tokens@);
        }
        best
    }
}

/// The parser.
pub struct Parser {
    pub(crate) lexer: Lexer,
    pub(crate) grammar: Arc<CGrammar>,
    pub(crate) scratch: Scratch,
    pub(crate) trie_lexer_stack: usize,
    pub(crate) captures: Vec<(String, Vec<u8>)>,
    pub(crate) lexer_stack: Vec<LexerState>,
    pub(crate) rows: Vec<Row>,
    pub(crate) row_infos: Vec<RowInfo>,
    pub(crate) stats: ParserStats,
    pub(crate) last_collapse: usize,
    pub(crate) token_idx: usize,
    pub(crate) byte_idx: usize,
    pub(crate) trie_gen_grammar: Option<CSymIdx>,
    pub(crate) trie_gen_grammar_accepting: bool,
}

impl Parser {
    pub closed spec fn grammar_view(&self) -> CGrammar {
        *self.grammar
    }

    pub closed spec fn lexer_view(&self) -> Lexer {
        self.lexer
    }

    /// The lexer stack, bottom first.
    pub closed spec fn stack(&self) -> Seq<LexerState> {
        self.lexer_stack@
    }

    /// Whether the parser is in definitive mode: what it is fed is committed.
    pub closed spec fn definitive(&self) -> bool {
        self.scratch.definitive
    }

    /// Depth of the lexer stack at which the speculation in progress began.
    pub closed spec fn trie_base(&self) -> nat {
        self.trie_lexer_stack as nat
    }

    /// How many row slots exist; some of them may be left over from
    /// speculation.
    pub closed spec fn rows_len(&self) -> nat {
        self.rows@.len()
    }

    /// The items of row `i`.
    pub closed spec fn row_items(&self, i: int) -> Seq<Item> {
        self.scratch.items@.subrange(
            self.rows@[i].first_item as int,
            self.rows@[i].last_item as int,
        )
    }

    /// The item slot at which row `i` begins.
    pub closed spec fn row_first(&self, i: int) -> nat {
        self.rows@[i].first_item as nat
    }

    /// The item slot behind the last item of row `i`.
    pub closed spec fn row_last(&self, i: int) -> nat {
        self.rows@[i].last_item as nat
    }

    /// The lexeme classes that may follow row `i`, one flag per class.
    pub closed spec fn row_allowed(&self, i: int) -> Seq<bool> {
        self.rows@[i].allowed_lexemes@
    }

    pub closed spec fn infos(&self) -> Seq<RowInfo> {
        self.row_infos@
    }

    pub closed spec fn captures_view(&self) -> Seq<(Seq<char>, Seq<u8>)> {
        captures_seq(self.captures@)
    }

    pub closed spec fn stats_view(&self) -> ParserStats {
        self.stats
    }

    pub closed spec fn token_idx_view(&self) -> usize {
        self.token_idx
    }

    pub closed spec fn byte_idx_view(&self) -> usize {
        self.byte_idx
    }

    pub closed spec fn last_collapse_view(&self) -> usize {
        self.last_collapse
    }

    pub closed spec fn pending_gen_grammar(&self) -> Option<CSymIdx> {
        self.trie_gen_grammar
    }

    pub closed spec fn gen_grammar_accepting(&self) -> bool {
        self.trie_gen_grammar_accepting
    }

    /// The frame on top of the lexer stack.
    pub open spec fn top(&self) -> LexerState {
        self.stack().last()
    }

    /// Number of rows that are live: the top frame's row and those before it.
    pub open spec fn num_rows_spec(&self) -> nat {
        (self.top().row_idx + 1) as nat
    }

    /// The live rows, in order.
    pub open spec fn live_rows(&self) -> Seq<Seq<Item>> {
        Seq::new(self.num_rows_spec(), |i: int| self.row_items(i))
    }

    /// The frames of the stack are in the order of their rows, and each names
    /// a lexer state that exists and a row that fits a 32-bit index with room
    /// for one more.
    pub closed spec fn stack_wf(&self) -> bool {
        &&& self.lexer_stack@.len() >= 1
        &&& self.lexer_stack@[0].row_idx == 0
        &&& self.lexer_stack@[0].byte is None
        &&& forall|i: int|
            0 <= i < self.lexer_stack@.len() ==> {
                &&& self.lexer.valid_state((#[trigger] self.lexer_stack@[i]).lexer_state)
                &&& self.lexer_stack@[i].row_idx < self.rows@.len()
                &&& self.lexer_stack@[i].row_idx < 0xffff_ffff
            }
        &&& forall|i: int, j: int|
            0 <= i <= j < self.lexer_stack@.len() ==> (#[trigger] self.lexer_stack@[i]).row_idx <= (
            #[trigger] self.lexer_stack@[j]).row_idx
    }

    /// The first `n` rows are ranges of the item array, in order, and hold
    /// valid items, none of them twice in a row.
    pub closed spec fn rows_wf_n(&self, n: nat) -> bool {
        &&& n <= self.rows@.len()
        &&& forall|i: int|
            0 <= i < n ==> {
                &&& (#[trigger] self.rows@[i]).first_item <= self.rows@[i].last_item
                &&& self.rows@[i].last_item <= self.scratch.items@.len()
                &&& self.rows@[i].allowed_lexemes@.len() == self.grammar.num_lexemes()
            }
        &&& forall|i: int, j: int|
            0 <= i <= j < n ==> (#[trigger] self.rows@[i]).last_item <= (
            #[trigger] self.rows@[j]).last_item
        &&& forall|i: int, j: int|
            0 <= i < j < n ==> (#[trigger] self.rows@[i]).last_item <= (
            #[trigger] self.rows@[j]).first_item
        &&& forall|i: int| 0 <= i < n ==> (#[trigger] self.row_items(i)).no_duplicates()
        &&& prev_valid(*self.grammar, rows_view(self.rows@, self.scratch.items@, n))
    }

    /// The live rows are well-formed.
    pub closed spec fn rows_wf(&self) -> bool {
        self.rows_wf_n(self.num_rows_spec())
    }

    /// Row infos stand for committed rows only: in definitive mode for the
    /// live rows (and for one more after a scan whose byte was then refused),
    /// during speculation for the rows that were committed when it began,
    /// live or not. No lexeme was scanned yet from the row of the last row
    /// info. The bookkeeping of items covers the committed rows in definitive
    /// mode.
    pub closed spec fn infos_wf(&self) -> bool {
        &&& 1 <= self.row_infos@.len() <= self.rows@.len()
        &&& self.row_infos@.last().lexeme.is_bogus_spec()
        &&& forall|i: int| 0 <= i < self.row_infos@.len() ==> (#[trigger] self.row_infos@[i]).lexeme.wf()
        &&& forall|i: int|
            0 <= i < self.row_infos@.len() ==> (#[trigger] self.rows@[i]).first_item
                <= self.rows@[i].last_item <= self.scratch.items@.len()
        &&& self.scratch.definitive ==> {
            &&& self.num_rows_spec() <= self.row_infos@.len()
            &&& forall|i: int|
                0 <= i < self.row_infos@.len() ==> (#[trigger] self.rows@[i]).last_item
                    <= self.scratch.item_props@.len()
        }
    }

    /// The row under construction in the scratch space.
    pub closed spec fn work_row(&self) -> Seq<Item> {
        self.scratch.row_view()
    }

    /// Row `idx` has been made and waits for a frame of the lexer stack to
    /// make it live.
    pub closed spec fn row_made(&self, idx: nat) -> bool {
        &&& self.rows_wf_n(idx + 1)
        &&& self.rows@[idx as int].first_item == self.scratch.row_start
        &&& self.rows@[idx as int].last_item == self.scratch.row_end
        &&& self.rows@[idx as int].first_item < self.rows@[idx as int].last_item
        &&& self.scratch.definitive ==> self.row_infos@.len() == idx + 1
    }

    /// What making a row leaves alone: the grammar, the lexer, the lexer
    /// stack, the mode, and the counters of tokens and bytes.
    pub closed spec fn same_frame(&self, old: &Parser) -> bool {
        &&& self.grammar == old.grammar
        &&& self.lexer == old.lexer
        &&& self.lexer_stack == old.lexer_stack
        &&& self.scratch.definitive == old.scratch.definitive
        &&& self.trie_lexer_stack == old.trie_lexer_stack
        &&& self.last_collapse == old.last_collapse
        &&& self.token_idx == old.token_idx
        &&& self.byte_idx == old.byte_idx
        &&& self.trie_gen_grammar == old.trie_gen_grammar
        &&& self.trie_gen_grammar_accepting == old.trie_gen_grammar_accepting
    }

    /// The first `n` rows of `self` are those of `old`.
    pub closed spec fn same_rows(&self, old: &Parser, n: nat) -> bool {
        &&& n <= old.rows@.len()
        &&& n <= self.rows@.len()
        &&& forall|i: int| 0 <= i < n ==> #[trigger] self.rows@[i] == old.rows@[i]
        &&& forall|i: int| 0 <= i < n ==> #[trigger] self.row_items(i) == old.row_items(i)
    }

    /// The scratch space is set up for building row `curr_idx`: the row under
    /// construction begins where the last live row ends, and holds valid
    /// items, none of them twice.
    pub closed spec fn building(&self, curr_idx: nat) -> bool {
        &&& curr_idx == self.num_rows_spec()
        &&& self.scratch.wf()
        &&& self.scratch.row_start == self.rows@[curr_idx - 1].last_item
        &&& self.scratch.row_view().no_duplicates()
        &&& forall|i: int|
            0 <= i < self.scratch.row_view().len() ==> item_valid(
                *self.grammar,
                curr_idx,
                #[trigger] self.scratch.row_view()[i],
            )
    }

    /// What making row `old.num_rows_spec()` did to `old`, where the row was
    /// built from `seeds` with the agenda beginning at position `from` of the
    /// row, on entering the row by a lexeme with the given visible and hidden
    /// bytes, and `r` says whether a row was made:
    /// the row under construction begins with the seeds, holds only items
    /// that are derivable from them, each once, and holds every step from
    /// each of its items at a position from `from` on; a row is made exactly
    /// if it holds an item; the rows before it and the lexer stack are as
    /// they were; in definitive mode the captures of the handled items are
    /// recorded, and a row that is made gets a fresh row info.
    pub open spec fn pushed_row(
        &self,
        old: &Parser,
        seeds: Seq<Item>,
        from: int,
        visible: Seq<u8>,
        hidden: Seq<u8>,
        r: bool,
    ) -> bool {
        let n = old.num_rows_spec();
        let g = self.grammar_view();
        let row = self.work_row();
        &&& self.same_frame(old)
        &&& self.same_rows(old, n)
        &&& 0 <= from <= seeds.len()
        &&& seeds.is_prefix_of(row)
        &&& (from == seeds.len() ==> row == seeds)
        &&& row_inv(g, old.live_rows(), seeds, row)
        &&& closed_from(g, old.live_rows(), row, from)
        &&& is_closed_run(g, old.live_rows(), seeds, from, row)
        &&& r == (row.len() > 0)
        &&& self.rows_len() == (if r {
            slots_after(old.rows_len(), n)
        } else {
            old.rows_len()
        })
        &&& self.stats_view().rows == old.stats_view().rows.wrapping_add(1)
        &&& self.stats_view().all_items == (if r {
            old.stats_view().all_items.wrapping_add(row.len() as usize)
        } else {
            old.stats_view().all_items
        })
        &&& self.stats_view().definitive_bytes == old.stats_view().definitive_bytes
        &&& self.stats_view().lexer_ops == old.stats_view().lexer_ops
        &&& self.stats_view().hidden_bytes == old.stats_view().hidden_bytes
        &&& r ==> {
            &&& self.row_made(n)
            &&& self.row_items(n as int) == row
            &&& forall|lx: int|
                0 <= lx < g.num_lexemes() ==> #[trigger] self.row_allowed(n as int)[lx] == allowed_of(
                    g,
                    row,
                    from,
                    lx,
                )
        }
        &&& !old.definitive() ==> self.infos() == old.infos() && self.captures_view()
            == old.captures_view()
        &&& old.definitive() ==> self.captures_view() == old.captures_view() + row_captures(
            g,
            old.infos(),
            visible,
            hidden,
            n,
            row.skip(from),
        )
        &&& old.definitive() && !r ==> self.infos() == old.infos()
        &&& old.definitive() && r ==> {
            &&& self.infos().len() == n + 1
            &&& self.infos().take(n as int) == old.infos().take(n as int)
            &&& self.infos()[n as int].lexeme.is_bogus_spec()
            &&& self.infos()[n as int].token_idx_start == old.token_idx_view()
            &&& self.infos()[n as int].token_idx_stop == old.token_idx_view()
            &&& self.infos()[n as int].start_byte_idx == old.byte_idx_view()
            &&& self.infos()[n as int].max_tokens@ == row_budgets(g, row.skip(from))
        }
    }

    /// What scanning a lexeme of the skip class did to `old`: where the
    /// current row holds an item, a new row is made that holds the same items
    /// and allows the same lexeme classes, and in definitive mode its row
    /// info takes over the token budgets of the current row. Nothing is
    /// captured.
    pub closed spec fn skipped_row(&self, old: &Parser, r: bool) -> bool {
        let n = old.num_rows_spec();
        &&& self.same_frame(old)
        &&& self.same_rows(old, n)
        &&& r == (old.row_items(n - 1).len() > 0)
        &&& self.rows_len() == (if r {
            slots_after(old.rows_len(), n)
        } else {
            old.rows_len()
        })
        &&& self.captures_view() == old.captures_view()
        &&& self.stats.definitive_bytes == old.stats.definitive_bytes
        &&& self.stats.lexer_ops == old.stats.lexer_ops
        &&& self.stats.hidden_bytes == old.stats.hidden_bytes
        &&& !r ==> self.infos() == old.infos() && self.stats == old.stats
        &&& r ==> {
            &&& self.row_made(n)
            &&& self.row_items(n as int) == old.row_items(n - 1)
            &&& self.row_allowed(n as int) == old.row_allowed(n - 1)
            &&& self.stats.rows == old.stats.rows.wrapping_add(1)
            &&& self.stats.all_items == old.stats.all_items.wrapping_add(
                old.row_items(n - 1).len() as usize,
            )
        }
        &&& !old.definitive() ==> self.infos() == old.infos()
        &&& old.definitive() && r ==> {
            &&& self.infos().len() == n + 1
            &&& self.infos().take(n as int) == old.infos().take(n as int)
            &&& self.infos()[n as int].lexeme.is_bogus_spec()
            &&& self.infos()[n as int].token_idx_start == old.token_idx_view()
            &&& self.infos()[n as int].token_idx_stop == old.token_idx_view()
            &&& self.infos()[n as int].start_byte_idx == old.byte_idx_view()
            &&& self.infos()[n as int].max_tokens@ == old.infos()[n - 1].max_tokens@
        }
    }

    /// Well-formedness of the parser.
    pub closed spec fn wf(&self) -> bool {
        &&& self.grammar.wf()
        &&& self.grammar.num_lexemes() >= 1
        &&& self.lexer.wf()
        &&& self.lexer.num_lexemes_spec() == self.grammar.num_lexemes()
        &&& self.scratch.row_start <= self.scratch.row_end <= self.scratch.items@.len()
        &&& self.stack_wf()
        &&& self.rows_wf()
        &&& self.infos_wf()
    }

    /// The lexer stack has no more frames than a machine word counts.
    pub proof fn lemma_stack_len(&self)
        ensures
            self.stack().len() <= usize::MAX,
    {
        vstd::std_specs::vec::axiom_spec_len(&self.lexer_stack);
    }

    /// The parser is in definitive mode and has one row info per live row.
    pub open spec fn committed(&self) -> bool {
        self.definitive() && self.infos().len() == self.num_rows_spec()
    }

    pub fn grammar(&self) -> (r: &CGrammar)
        ensures
            *r == self.grammar_view(),
    {
        &self.grammar
    }

    pub fn lexer_state(&self) -> (r: LexerState)
        requires
            self.wf(),
        ensures
            r == self.top(),
    {
        self.lexer_stack[self.lexer_stack.len() - 1]
    }

    /// Number of live rows.
    pub fn num_rows(&self) -> (r: usize)
        requires
            self.wf(),
        ensures
            r == self.num_rows_spec(),
            r == self.top().row_idx + 1,
            r <= self.rows_len(),
    {
        self.lexer_state().row_idx as usize + 1
    }

    /// Whether the parser is in definitive mode with one row info per live
    /// row, as the operations on committed state ask.
    pub fn is_committed(&self) -> (r: bool)
        requires
            self.wf(),
        ensures
            r == self.committed(),
    {
        self.scratch.definitive && self.row_infos.len() == self.num_rows()
    }

    /// The captures recorded so far, oldest first.
    pub fn captures(&self) -> (r: &[(String, Vec<u8>)])
        ensures
            captures_seq(r@) == self.captures_view(),
    {
        self.captures.as_slice()
    }

    pub fn stats(&self) -> (r: ParserStats)
        ensures
            r == self.stats_view(),
    {
        self.stats
    }
}

} // verus!
