//! What one step of the parser does, stated over the parser's views: a byte
//! moves the lexer, a lexeme that ends is scanned into a new row, and hidden
//! bytes are given back to the lexer.

use vstd::prelude::*;
use crate::earley::closure::is_closed_run;
use crate::earley::closure::closed_from;
use crate::earley::closure::row_inv;
use crate::earley::grammar::CGrammar;
use crate::earley::item::Item;
use crate::earley::lexer::Lexer;
use crate::earley::lexer::LexerResult;
use crate::earley::lexer::PreLexeme;
use crate::earley::lexer::StateID;
use crate::earley::lexerspec::LexemeIdx;
use crate::earley::lexerspec::LexerSpec;
use crate::earley::grammar::ModelVariable;
use crate::earley::grammar::GenGrammarOptions;
use crate::earley::parser::LexerState;
use crate::earley::parser::ParserStats;
use crate::earley::parser::RowInfo;
use crate::earley::parser::Parser;
use crate::earley::grammar::CSymIdx;
use crate::earley::parser::rows::scan_seeds;
use crate::earley::parser::rows::seeds_of;
use crate::earley::parser::rows::SeedBy;
use crate::earley::rowbuild::allowed_of;
use crate::earley::rowbuild::row_budgets;
use crate::earley::rowbuild::row_captures;

verus! {

/// The byte, if there is one, as a sequence.
pub open spec fn opt_byte(b: Option<u8>) -> Seq<u8> {
    match b {
        Some(x) => seq![x],
        None => seq![],
    }
}

/// The bytes of the topmost frames of `stack` that belong to row `row`,
/// oldest first.
pub open spec fn row_bytes(stack: Seq<LexerState>, row: u32) -> Seq<u8>
    decreases stack.len(),
{
    if stack.len() == 0 || stack.last().row_idx != row {
        seq![]
    } else {
        row_bytes(stack.drop_last(), row) + opt_byte(stack.last().byte)
    }
}

/// Whether `allowed` has a member and every member is a lexeme class whose
/// matches all begin with `bytes`.
pub open spec fn forced_by_all(spec: LexerSpec, allowed: Seq<bool>, bytes: Seq<u8>) -> bool {
    &&& exists|lx: int| 0 <= lx < allowed.len() && #[trigger] allowed[lx]
    &&& forall|lx: int|
        0 <= lx < allowed.len() && #[trigger] allowed[lx] ==> lx < spec.lexemes@.len()
            && spec.lexemes@[lx].has_forced_bytes_spec(bytes)
}

/// The states that the lexer goes through when it is fed `bytes` from
/// `from`, where no lexeme ends and no byte is refused on the way.
pub open spec fn replay(lexer: Lexer, from: StateID, bytes: Seq<u8>) -> Option<Seq<StateID>>
    decreases bytes.len(),
{
    if bytes.len() == 0 {
        Some(seq![])
    } else {
        match replay(lexer, from, bytes.drop_last()) {
            Some(states) => {
                let prev = if states.len() == 0 {
                    from
                } else {
                    states.last()
                };
                match lexer.advance_spec(prev, bytes.last()) {
                    LexerResult::State(next, _) => Some(states.push(next)),
                    _ => None,
                }
            },
            None => None,
        }
    }
}

/// Whether hidden bytes are fed to the lexer again at once: every lexeme
/// class of `allowed`, the classes that the new row allows, begins with
/// them, and the lexer takes them from the new row's start state without
/// ending a lexeme. The mode plays no part in this.
pub open spec fn hidden_replays(lexer: Lexer, spec: LexerSpec, allowed: Seq<bool>, hidden: Seq<u8>) -> bool {
    &&& forced_by_all(spec, allowed, hidden)
    &&& replay(lexer, lexer.start_state_spec(allowed, None), hidden) is Some
}

/// The lexer stack after a lexeme with the hidden bytes `hidden` was scanned
/// into row `n`. Where the hidden bytes are fed again at once, the frames of
/// all but the first of them are replaced by one frame for each of them in
/// the new row. Otherwise one frame without a byte is pushed: in definitive
/// mode in the new row's start state, during speculation in the dead state.
pub open spec fn hidden_stack(
    stack: Seq<LexerState>,
    lexer: Lexer,
    spec: LexerSpec,
    allowed: Seq<bool>,
    hidden: Seq<u8>,
    n: nat,
    definitive: bool,
) -> Seq<LexerState> {
    if hidden_replays(lexer, spec, allowed, hidden) {
        let states = replay(lexer, lexer.start_state_spec(allowed, None), hidden)->0;
        stack.take(stack.len() - (hidden.len() - 1)) + Seq::new(
            hidden.len(),
            |i: int| LexerState { row_idx: n as u32, lexer_state: states[i], byte: Some(hidden[i]) },
        )
    } else {
        stack.push(
            LexerState {
                row_idx: n as u32,
                lexer_state: if definitive {
                    lexer.start_state_spec(allowed, None)
                } else {
                    StateID::dead_spec()
                },
                byte: None,
            },
        )
    }
}

/// Whether `row` holds a completed rule of the start symbol.
pub open spec fn accepts_row(g: CGrammar, row: Seq<Item>) -> bool {
    exists|i: int|
        0 <= i < row.len() && g.is_complete((#[trigger] row[i]).rule_spec()) && g.lhs_spec(
            row[i].rule_spec(),
        ) == g.start_spec()
}

/// The bytes that row `idx` of `n` rows stands for: the visible bytes of the
/// lexeme that was scanned from it; for the last row, while no lexeme was
/// scanned from it, the bytes that are pending on the lexer stack.
pub open spec fn row_text(infos: Seq<RowInfo>, pending: Seq<u8>, n: nat, idx: int) -> Seq<u8> {
    let visible = infos[idx].lexeme.visible_bytes_spec();
    if visible.len() == 0 && idx == n - 1 {
        pending
    } else {
        visible
    }
}

/// The bytes that the first `k` rows stand for, in order.
pub open spec fn text_upto(infos: Seq<RowInfo>, pending: Seq<u8>, n: nat, k: int) -> Seq<u8>
    decreases k,
{
    if k <= 0 {
        seq![]
    } else {
        text_upto(infos, pending, n, k - 1) + row_text(infos, pending, n, k - 1)
    }
}

/// For each byte that the first `k` rows stand for, the row that it
/// belongs to.
pub open spec fn indices_upto(infos: Seq<RowInfo>, pending: Seq<u8>, n: nat, k: int) -> Seq<usize>
    decreases k,
{
    if k <= 0 {
        seq![]
    } else {
        indices_upto(infos, pending, n, k - 1) + Seq::new(
            row_text(infos, pending, n, k - 1).len(),
            |j: int| (k - 1) as usize,
        )
    }
}

/// Whether the symbol after the dot of `it` is one that input can make
/// progress on: a terminal other than the skip class, or a nested grammar.
pub open spec fn wants_progress(g: CGrammar, it: Item) -> bool {
    let sym = g.symbol_dot(it.rule_spec());
    &&& sym.lexeme != Some(LexemeIdx::skip_spec())
    &&& sym.idx != CSymIdx::null_spec()
    &&& (sym.is_terminal || sym.gen_grammar is Some)
}

/// Whether `vars` holds a model variable equal to `mv`.
pub open spec fn has_var(vars: Seq<ModelVariable>, mv: ModelVariable) -> bool {
    exists|i: int| 0 <= i < vars.len() && (#[trigger] vars[i]).same_spec(&mv)
}

/// The model variables that the items of `row` wait for, each once, in the
/// order in which the row first names them.
pub open spec fn vars_of(g: CGrammar, row: Seq<Item>) -> Seq<ModelVariable>
    decreases row.len(),
{
    if row.len() == 0 {
        seq![]
    } else {
        let rest = vars_of(g, row.drop_last());
        match g.symbol_dot(row.last().rule_spec()).props.model_variable {
            Some(mv) => if has_var(rest, mv) {
                rest
            } else {
                rest.push(mv)
            },
            None => rest,
        }
    }
}

/// The nested grammar to run next: among the symbols after the dots of
/// `row` that stand for a nested grammar, the first of those with the lowest
/// grammar number.
pub open spec fn gen_choice(g: CGrammar, row: Seq<Item>) -> Option<(CSymIdx, GenGrammarOptions)>
    decreases row.len(),
{
    if row.len() == 0 {
        None
    } else {
        let rest = gen_choice(g, row.drop_last());
        let sym = g.symbol_dot(row.last().rule_spec());
        let better = match rest {
            Some(best) => {
                let (_, options) = best;
                match sym.gen_grammar {
                    Some(gg) => options.grammar.0 > gg.grammar.0,
                    None => false,
                }
            },
            None => sym.gen_grammar is Some,
        };
        if better {
            Some((g.sym_dot_spec(row.last().rule_spec()), sym.gen_grammar->0))
        } else {
            rest
        }
    }
}

/// The symbols after the dots of `row` that compete for the input: nested
/// grammars and terminals, one entry for each item that waits for one.
pub open spec fn gen_rivals(g: CGrammar, row: Seq<Item>) -> Seq<CSymIdx>
    decreases row.len(),
{
    if row.len() == 0 {
        seq![]
    } else {
        let rest = gen_rivals(g, row.drop_last());
        let sym = g.symbol_dot(row.last().rule_spec());
        if sym.gen_grammar is Some || sym.is_terminal {
            rest.push(g.sym_dot_spec(row.last().rule_spec()))
        } else {
            rest
        }
    }
}

/// How many row slots there are after row `n` was made, where there were
/// `before`: the row takes a slot that is there, or one more.
pub open spec fn slots_after(before: nat, n: nat) -> nat {
    if before < n + 1 {
        n + 1
    } else {
        before
    }
}

/// The statistics `before` after one more row of `len` items was made.
pub open spec fn with_row(before: ParserStats, len: nat) -> ParserStats {
    ParserStats {
        rows: before.rows.wrapping_add(1),
        all_items: before.all_items.wrapping_add(len as usize),
        ..before
    }
}

/// The statistics `before` after an attempt to make a row that made none.
pub open spec fn with_empty_row(before: ParserStats) -> ParserStats {
    ParserStats { rows: before.rows.wrapping_add(1), ..before }
}

/// The byte of `pre` that opens the next lexeme, if it has one.
pub open spec fn transition_byte(pre: PreLexeme) -> Option<u8> {
    if pre.byte_next_row {
        pre.byte
    } else {
        None
    }
}

/// The byte of `pre` that closes its lexeme, if it has one.
pub open spec fn lexeme_byte(pre: PreLexeme) -> Option<u8> {
    if pre.byte_next_row {
        None
    } else {
        pre.byte
    }
}

impl Parser {
    /// What no step changes: the grammar, the lexer, the mode, and the
    /// counters of tokens and bytes.
    pub open spec fn frame_kept(&self, old: &Parser) -> bool {
        &&& self.grammar_view() == old.grammar_view()
        &&& self.lexer_view() == old.lexer_view()
        &&& self.definitive() == old.definitive()
        &&& self.trie_base() == old.trie_base()
        &&& self.token_idx_view() == old.token_idx_view()
        &&& self.byte_idx_view() == old.byte_idx_view()
        &&& self.last_collapse_view() == old.last_collapse_view()
        &&& self.pending_gen_grammar() == old.pending_gen_grammar()
        &&& self.gen_grammar_accepting() == old.gen_grammar_accepting()
    }

    /// The two parsers look the same through every view but the statistics.
    pub open spec fn same_views(&self, other: &Parser) -> bool {
        &&& self.frame_kept(other)
        &&& self.stack() == other.stack()
        &&& self.rows_len() == other.rows_len()
        &&& self.infos() == other.infos()
        &&& self.captures_view() == other.captures_view()
        &&& forall|i: int|
            0 <= i < self.num_rows_spec() ==> #[trigger] self.row_items(i) == other.row_items(i)
                && self.row_allowed(i) == other.row_allowed(i)
    }

    /// The counters of bytes fed are as they were.
    pub open spec fn counts_kept(&self, old: &Parser) -> bool {
        &&& self.stats_view().lexer_ops == old.stats_view().lexer_ops
        &&& self.stats_view().definitive_bytes == old.stats_view().definitive_bytes
    }

    /// The first `n` rows are as they were.
    pub open spec fn rows_kept(&self, old: &Parser, n: nat) -> bool {
        forall|i: int|
            0 <= i < n ==> #[trigger] self.row_items(i) == old.row_items(i) && self.row_allowed(i)
                == old.row_allowed(i)
    }

    /// Nothing but the statistics changed.
    pub open spec fn unchanged(&self, old: &Parser) -> bool {
        &&& self.frame_kept(old)
        &&& self.stack() == old.stack()
        &&& self.rows_len() == old.rows_len()
        &&& self.rows_kept(old, old.num_rows_spec())
        &&& self.infos() == old.infos()
        &&& self.captures_view() == old.captures_view()
    }

    /// The bytes that were fed since the current row began.
    pub open spec fn pending_bytes(&self) -> Seq<u8> {
        row_bytes(self.stack(), self.top().row_idx)
    }

    /// The bytes of the lexeme that `pre` ends.
    pub open spec fn lexeme_bytes(&self, pre: PreLexeme) -> Seq<u8> {
        self.pending_bytes() + opt_byte(lexeme_byte(pre))
    }

    /// Whether there is room for the rows that `pre` can add, and `pre` hides
    /// no more bytes than its lexeme has.
    pub open spec fn fits(&self, pre: PreLexeme) -> bool {
        self.num_rows_spec() + 2 <= 0xffff_ffff && pre.hidden_len <= self.lexeme_bytes(pre).len()
    }

    /// The seeds of the row that a lexeme of class `idx` is scanned into.
    pub open spec fn seeds_for(&self, idx: LexemeIdx) -> Seq<Item> {
        let cur = self.row_items(self.num_rows_spec() - 1);
        if idx == LexemeIdx::skip_spec() {
            cur
        } else {
            scan_seeds(self.grammar_view(), cur, idx)
        }
    }

    /// Whether the lexeme that `pre` ends can be scanned: it fits, and an
    /// item of the current row waits for it.
    pub open spec fn scans(&self, pre: PreLexeme) -> bool {
        self.fits(pre) && self.seeds_for(pre.idx).len() > 0
    }

    /// Row `old.num_rows_spec()` of `self` is the row that is made from the
    /// live rows of `old` on a lexeme of class `idx` with the bytes `bytes`,
    /// of which the last `hidden_len` are hidden: a copy of the current row
    /// where `copy` is set, else the closure of `seeds`. The rows before it
    /// are as they were. In definitive mode the lexeme is recorded in the
    /// info of the row it was scanned from, the new row has a fresh info,
    /// and the captures of the new row's items are recorded.
    pub open spec fn row_scanned(
        &self,
        old: &Parser,
        seeds: Seq<Item>,
        copy: bool,
        idx: LexemeIdx,
        bytes: Seq<u8>,
        hidden_len: usize,
    ) -> bool {
        let n = old.num_rows_spec();
        let g = old.grammar_view();
        let row = self.row_items(n as int);
        &&& self.rows_kept(old, n)
        &&& self.rows_len() == slots_after(old.rows_len(), n)
        &&& self.row_allowed(n as int).len() == g.num_lexemes()
        &&& row.len() > 0
        &&& if copy {
            row == old.row_items(n - 1) && self.row_allowed(n as int) == old.row_allowed(n - 1)
        } else {
            &&& seeds.is_prefix_of(row)
            &&& row_inv(g, old.live_rows(), seeds, row)
            &&& closed_from(g, old.live_rows(), row, 0)
            &&& is_closed_run(g, old.live_rows(), seeds, 0, row)
            &&& forall|lx: int|
                0 <= lx < g.num_lexemes() ==> #[trigger] self.row_allowed(n as int)[lx] == allowed_of(
                    g,
                    row,
                    0,
                    lx,
                )
        }
        &&& if old.definitive() {
            let last = self.infos()[n - 1];
            let fresh = self.infos()[n as int];
            &&& self.infos().len() == n + 1
            &&& forall|i: int| 0 <= i < n - 1 ==> #[trigger] self.infos()[i] == old.infos()[i]
            &&& last.start_byte_idx == old.infos()[n - 1].start_byte_idx
            &&& last.token_idx_start == old.infos()[n - 1].token_idx_start
            &&& last.token_idx_stop == old.infos()[n - 1].token_idx_stop
            &&& last.max_tokens@ == old.infos()[n - 1].max_tokens@
            &&& last.lexeme.idx == idx
            &&& last.lexeme.bytes@ == bytes
            &&& last.lexeme.hidden_len == hidden_len
            &&& fresh.lexeme.is_bogus_spec()
            &&& fresh.token_idx_start == old.token_idx_view()
            &&& fresh.token_idx_stop == old.token_idx_view()
            &&& fresh.start_byte_idx == old.byte_idx_view()
            &&& fresh.max_tokens@ == (if copy {
                old.infos()[n - 1].max_tokens@
            } else {
                row_budgets(g, row)
            })
            &&& self.captures_view() == old.captures_view() + (if copy {
                Seq::<(Seq<char>, Seq<u8>)>::empty()
            } else {
                row_captures(
                    g,
                    old.infos(),
                    bytes.take(bytes.len() - hidden_len),
                    bytes.skip(bytes.len() - hidden_len),
                    n,
                    row,
                )
            })
        } else {
            self.infos() == old.infos() && self.captures_view() == old.captures_view()
        }
    }

    /// Row `old.num_rows_spec()` of `self` is the row that scanning the
    /// lexeme of `pre` from the live rows of `old` makes.
    pub open spec fn scanned(&self, old: &Parser, pre: PreLexeme) -> bool {
        self.row_scanned(
            old,
            old.seeds_for(pre.idx),
            pre.idx == LexemeIdx::skip_spec(),
            pre.idx,
            old.lexeme_bytes(pre),
            pre.hidden_len,
        )
    }

    /// The lexer state in which the row that `pre` was scanned into begins.
    pub open spec fn added_state(&self, old: &Parser, pre: PreLexeme) -> StateID {
        old.lexer_view().start_state_spec(
            self.row_allowed(old.num_rows_spec() as int),
            transition_byte(pre),
        )
    }

    /// The hidden bytes of the lexeme that `pre` ends.
    pub open spec fn hidden_bytes_of(&self, pre: PreLexeme) -> Seq<u8> {
        let bytes = self.lexeme_bytes(pre);
        bytes.skip(bytes.len() - pre.hidden_len)
    }

    /// Whether the hidden bytes of `pre` are fed to the lexer again at once.
    pub open spec fn replays(&self, old: &Parser, pre: PreLexeme) -> bool {
        hidden_replays(
            old.lexer_view(),
            old.grammar_view().lexer_spec_view(),
            self.row_allowed(old.num_rows_spec() as int),
            old.hidden_bytes_of(pre),
        )
    }

    /// Whether scanning the lexeme of `pre` during a speculation left alone
    /// the frames from before the speculation: the lexer stack was no
    /// shorter than when the speculation began, and hidden bytes that were
    /// fed again took the place of frames of the speculation only.
    pub open spec fn shallow(&self, old: &Parser, pre: PreLexeme) -> bool {
        &&& old.trie_base() <= old.stack().len()
        &&& old.scans(pre) && pre.hidden_len >= 2 && self.replays(old, pre) ==> pre.hidden_len - 1
            <= old.stack().len() - old.trie_base()
    }

    /// Whether a step of a speculation left alone the frames from before the
    /// speculation.
    pub open spec fn keeps_base(&self, old: &Parser, res: LexerResult) -> bool {
        &&& old.trie_base() <= old.stack().len()
        &&& res matches LexerResult::Lexeme(pre) ==> self.shallow(old, pre)
    }

    /// The lexer stack after a lexeme with hidden bytes was scanned.
    pub open spec fn stack_after_hidden(&self, old: &Parser, pre: PreLexeme) -> Seq<LexerState> {
        hidden_stack(
            old.stack(),
            old.lexer_view(),
            old.grammar_view().lexer_spec_view(),
            self.row_allowed(old.num_rows_spec() as int),
            old.hidden_bytes_of(pre),
            old.num_rows_spec(),
            old.definitive(),
        )
    }

    /// What scanning `second`, a lexeme of one byte that was found at the
    /// start of a new row, did: `mid` is the parser with the new row live,
    /// and `old` the parser before the first lexeme was scanned.
    pub open spec fn second_scanned(&self, mid: &Parser, old: &Parser, second: PreLexeme, r: bool) -> bool {
        let n = mid.num_rows_spec();
        &&& self.frame_kept(mid)
        &&& if !mid.scans(second) {
            &&& !r
            &&& self.stack() == old.stack()
            &&& self.rows_len() == mid.rows_len()
            &&& self.rows_kept(mid, n)
            &&& self.infos() == mid.infos()
            &&& self.captures_view() == mid.captures_view()
        } else {
            &&& r
            &&& self.scanned(mid, second)
            &&& self.stack() == old.stack().push(
                LexerState {
                    row_idx: n as u32,
                    lexer_state: mid.lexer_view().start_state_spec(self.row_allowed(n as int), None),
                    byte: None,
                },
            )
        }
    }

    /// What the parser does when the lexer reports the lexeme `pre`, and `r`
    /// says whether the lexeme was accepted.
    ///
    /// A lexeme that cannot be scanned is refused and changes nothing. One
    /// that can be scanned makes a new row. Then: with hidden bytes, the
    /// lexer is restarted over them; with a byte that opens the next lexeme
    /// but leads the new row's lexer nowhere, the lexeme is refused after
    /// all; where that byte is a whole lexeme by itself, that lexeme is
    /// scanned as well, and both are accepted or refused together; otherwise
    /// one frame is pushed for the new row.
    pub open spec fn advanced(&self, old: &Parser, pre: PreLexeme, r: bool) -> bool {
        let n = old.num_rows_spec();
        let lexer = old.lexer_view();
        let s = self.added_state(old, pre);
        let tb = transition_byte(pre);
        &&& self.frame_kept(old)
        &&& if !old.scans(pre) {
            !r && self.unchanged(old)
        } else if pre.hidden_len > 0 {
            r && self.scanned(old, pre) && self.stack() == self.stack_after_hidden(old, pre)
        } else if pre.byte_next_row && s == StateID::dead_spec() {
            !r && self.scanned(old, pre) && self.stack() == old.stack()
        } else if tb is Some && lexer.check_for_single_byte_lexeme_spec(s, tb->0) is Some {
            exists|mid: Parser|
                {
                    &&& #[trigger] mid.scanned(old, pre)
                    &&& mid.wf()
                    &&& mid.frame_kept(old)
                    &&& mid.stack() == old.stack().push(
                        LexerState { row_idx: n as u32, lexer_state: s, byte: None },
                    )
                    &&& self.second_scanned(
                        &mid,
                        old,
                        lexer.check_for_single_byte_lexeme_spec(s, tb->0)->0,
                        r,
                    )
                }
        } else {
            r && self.scanned(old, pre) && self.stack() == old.stack().push(
                LexerState { row_idx: n as u32, lexer_state: s, byte: tb },
            )
        }
    }

    /// Whether the lexeme of `pre` is followed at once by a second lexeme:
    /// it can be scanned, hides no bytes, and its byte opens the next lexeme,
    /// leads the new row's lexer somewhere, and is a whole lexeme by itself.
    pub open spec fn two_lexemes(&self, old: &Parser, pre: PreLexeme) -> bool {
        let s = self.added_state(old, pre);
        let tb = transition_byte(pre);
        &&& old.scans(pre)
        &&& pre.hidden_len == 0
        &&& !(pre.byte_next_row && s == StateID::dead_spec())
        &&& tb is Some
        &&& old.lexer_view().check_for_single_byte_lexeme_spec(s, tb->0) is Some
    }

    /// Whether `mid` is the parser between the two lexemes of a step from
    /// `old` to `self`: the lexeme of `pre` is scanned and one frame stands
    /// for the new row, and the second lexeme is scanned from there.
    pub open spec fn between(&self, mid: &Parser, old: &Parser, pre: PreLexeme, r: bool) -> bool {
        let n = old.num_rows_spec();
        let s = self.added_state(old, pre);
        let tb = transition_byte(pre);
        &&& mid.scanned(old, pre)
        &&& mid.wf()
        &&& mid.frame_kept(old)
        &&& mid.stack() == old.stack().push(LexerState { row_idx: n as u32, lexer_state: s, byte: None })
        &&& self.second_scanned(
            mid,
            old,
            old.lexer_view().check_for_single_byte_lexeme_spec(s, tb->0)->0,
            r,
        )
    }

    /// The parser between the two lexemes of a step from `old` to `self`.
    pub open spec fn middle(&self, old: &Parser, pre: PreLexeme, r: bool) -> Parser {
        choose|mid: Parser| self.between(&mid, old, pre, r)
    }

    /// A step of two lexemes has a parser between them, with the row of the
    /// first lexeme as its current row.
    pub proof fn lemma_middle(q: Parser, p: Parser, pre: PreLexeme, r: bool)
        requires
            q.advanced(&p, pre, r),
            q.two_lexemes(&p, pre),
        ensures
            q.between(&q.middle(&p, pre, r), &p, pre, r),
            q.middle(&p, pre, r).num_rows_spec() == p.num_rows_spec() + 1,
    {
        let n = p.num_rows_spec();
        let s = q.added_state(&p, pre);
        let tb = transition_byte(pre);
        let mid = choose|mid: Parser|
            {
                &&& #[trigger] mid.scanned(&p, pre)
                &&& mid.wf()
                &&& mid.frame_kept(&p)
                &&& mid.stack() == p.stack().push(LexerState { row_idx: n as u32, lexer_state: s, byte: None })
                &&& q.second_scanned(
                    &mid,
                    &p,
                    p.lexer_view().check_for_single_byte_lexeme_spec(s, tb->0)->0,
                    r,
                )
            };
        assert(q.between(&mid, &p, pre, r));
        let m = q.middle(&p, pre, r);
        assert(m.stack().last().row_idx == n as u32);
    }

    /// What the parser does with what the lexer made of a byte, and `r` says
    /// whether the byte was accepted: a byte that the lexer takes pushes one
    /// frame in the current row; a byte that it refuses changes nothing; a
    /// lexeme that ends is handed to the parser.
    pub open spec fn pushed(&self, old: &Parser, res: LexerResult, r: bool) -> bool {
        match res {
            LexerResult::State(next, byte) => {
                &&& r
                &&& self.frame_kept(old)
                &&& self.rows_len() == old.rows_len()
                &&& self.rows_kept(old, old.num_rows_spec())
                &&& self.infos() == old.infos()
                &&& self.captures_view() == old.captures_view()
                &&& self.stack() == old.stack().push(
                    LexerState { row_idx: old.top().row_idx, lexer_state: next, byte: Some(byte) },
                )
            },
            LexerResult::Error => !r && self.unchanged(old),
            LexerResult::Lexeme(pre) => self.advanced(old, pre, r),
        }
    }

    /// The items of the current row.
    pub open spec fn curr_items(&self) -> Seq<Item> {
        self.row_items(self.num_rows_spec() - 1)
    }

    /// What ending the pending lexeme did, and `r` says whether it could be
    /// ended: with no bytes pending there is nothing to end, and nothing
    /// changes; otherwise the lexer is asked to end its lexeme here, and the
    /// parser acts on its answer.
    pub open spec fn flushed(&self, old: &Parser, r: bool) -> bool {
        if old.pending_bytes().len() == 0 {
            r && self.unchanged(old)
        } else {
            self.pushed(old, old.lexer_view().try_lexeme_end_spec(old.top().lexer_state), r)
        }
    }

    /// Whether `self`, the parser that `trial` became when its pending
    /// lexeme was ended with success `flushed`, shows that input may end: the
    /// lexeme could be ended, and the row reached holds a completed rule of
    /// the start symbol.
    pub open spec fn shows_accepting(&self, trial: &Parser, flushed: bool) -> bool {
        &&& self.wf()
        &&& self.flushed(trial, flushed)
        &&& flushed
        &&& accepts_row(self.grammar_view(), self.curr_items())
    }

    /// The two parsers look the same, counters and row slots included, but
    /// for what they note of a nested grammar.
    pub open spec fn same_parse(&self, other: &Parser) -> bool {
        &&& self.grammar_view() == other.grammar_view()
        &&& self.lexer_view() == other.lexer_view()
        &&& self.definitive() == other.definitive()
        &&& self.trie_base() == other.trie_base()
        &&& self.token_idx_view() == other.token_idx_view()
        &&& self.byte_idx_view() == other.byte_idx_view()
        &&& self.last_collapse_view() == other.last_collapse_view()
        &&& self.stack() == other.stack()
        &&& self.infos() == other.infos()
        &&& self.captures_view() == other.captures_view()
        &&& self.stats_view() == other.stats_view()
        &&& self.rows_len() == other.rows_len()
        &&& self.rows_len() >= self.num_rows_spec()
        &&& forall|i: int|
            0 <= i < self.rows_len() ==> #[trigger] self.row_items(i) == other.row_items(i)
                && self.row_allowed(i) == other.row_allowed(i)
    }

    /// The seeds of the row that follows when the nested grammar of symbol
    /// `symidx` has run: the items that wait for the symbol, with their dots
    /// moved over it.
    pub open spec fn gen_seeds(&self, symidx: CSymIdx) -> Seq<Item> {
        seeds_of(self.grammar_view(), self.curr_items(), SeedBy::Symbol(symidx))
    }

    /// What scanning the output `bytes` of the nested grammar of symbol
    /// `symidx` did, and `r` says whether it could be scanned: it can where
    /// there is room for a row and an item waits for the symbol. Then a row
    /// is made from those items, the output is recorded as a lexeme of the
    /// skip class, and one frame is pushed in the new row's start state.
    /// Otherwise nothing changes.
    pub open spec fn gen_scanned(&self, old: &Parser, symidx: CSymIdx, bytes: Seq<u8>, r: bool) -> bool {
        let n = old.num_rows_spec();
        &&& self.frame_kept(old)
        &&& r == (n + 2 <= 0xffff_ffff && old.gen_seeds(symidx).len() > 0)
        &&& self.stats_view() == (if r {
            with_row(old.stats_view(), self.row_items(n as int).len())
        } else {
            old.stats_view()
        })
        &&& if r {
            &&& self.row_scanned(old, old.gen_seeds(symidx), false, LexemeIdx::skip_spec(), bytes, 0)
            &&& self.stack() == old.stack().push(
                LexerState {
                    row_idx: n as u32,
                    lexer_state: old.lexer_view().start_state_spec(self.row_allowed(n as int), None),
                    byte: None,
                },
            )
        } else {
            self.unchanged(old)
        }
    }

    /// Whether input may end here as far as the lexer goes: bytes are
    /// pending, and the lexer can end its lexeme at the end of input.
    pub open spec fn eos_allowed(&self) -> bool {
        self.pending_bytes().len() > 0 && self.lexer_view().desc(self.top().lexer_state).allows_eos
    }

    /// The seeds of the row that follows when the model variable `mv` was
    /// taken: the items that wait for it, with their dots moved over it.
    pub open spec fn var_seeds(&self, mv: ModelVariable) -> Seq<Item> {
        seeds_of(self.grammar_view(), self.curr_items(), SeedBy::Variable(mv))
    }

    /// What making a row from `seeds` without a lexeme did, and `r` says
    /// whether a row was made: one is made where there is room and a seed.
    /// It is row `old.num_rows_spec()`, the closure of the seeds, and in
    /// definitive mode it has a fresh row info and the captures of its items
    /// are recorded. The lexer stack is as it was, so that the new row is not
    /// live.
    pub open spec fn row_added(&self, old: &Parser, seeds: Seq<Item>, r: bool) -> bool {
        let n = old.num_rows_spec();
        let g = old.grammar_view();
        let row = self.row_items(n as int);
        &&& self.frame_kept(old)
        &&& self.stack() == old.stack()
        &&& r == (n + 2 <= 0xffff_ffff && seeds.len() > 0)
        &&& self.stats_view() == (if r {
            with_row(old.stats_view(), row.len())
        } else {
            old.stats_view()
        })
        &&& if r {
            &&& self.rows_kept(old, n)
            &&& self.rows_len() == slots_after(old.rows_len(), n)
            &&& self.row_allowed(n as int).len() == g.num_lexemes()
            &&& row.len() > 0
            &&& seeds.is_prefix_of(row)
            &&& row_inv(g, old.live_rows(), seeds, row)
            &&& closed_from(g, old.live_rows(), row, 0)
            &&& is_closed_run(g, old.live_rows(), seeds, 0, row)
            &&& forall|lx: int|
                0 <= lx < g.num_lexemes() ==> #[trigger] self.row_allowed(n as int)[lx] == allowed_of(
                    g,
                    row,
                    0,
                    lx,
                )
            &&& if old.definitive() {
                let fresh = self.infos()[n as int];
                &&& self.infos().len() == n + 1
                &&& forall|i: int| 0 <= i < n ==> #[trigger] self.infos()[i] == old.infos()[i]
                &&& fresh.lexeme.is_bogus_spec()
                &&& fresh.token_idx_start == old.token_idx_view()
                &&& fresh.token_idx_stop == old.token_idx_view()
                &&& fresh.start_byte_idx == old.byte_idx_view()
                &&& fresh.max_tokens@ == row_budgets(g, row)
                &&& self.captures_view() == old.captures_view() + row_captures(
                    g,
                    old.infos(),
                    Seq::<u8>::empty(),
                    Seq::<u8>::empty(),
                    n,
                    row,
                )
            } else {
                self.infos() == old.infos() && self.captures_view() == old.captures_view()
            }
        } else {
            self.unchanged(old)
        }
    }

    /// What taking the model variable `mv` did, and `r` says whether it
    /// could be taken. The pending lexeme is ended first (`mid`); where that
    /// cannot be done the variable cannot be taken. The end-of-sentence
    /// variable is taken without more ado where input could end to begin
    /// with. Otherwise a row is made from the items that wait for the
    /// variable.
    pub open spec fn var_scanned(&self, old: &Parser, mv: ModelVariable, r: bool) -> bool {
        exists|mid: Parser, flushed: bool|
            {
                &&& mid.wf()
                &&& #[trigger] mid.flushed(old, flushed)
                &&& mid.flush_counted(old, flushed)
                &&& if !flushed {
                    !r && *self == mid
                } else if mv.is_eos_spec() && old.eos_allowed() {
                    r && *self == mid
                } else {
                    self.row_added(&mid, mid.var_seeds(mv), r)
                }
            }
    }

    /// Whether the end-of-sentence token may be sampled after the walk over
    /// the candidate tokens: the walk began at a token boundary, and input
    /// may end here as far as the lexer goes.
    pub open spec fn eos_after_walk(&self, start_is_empty: bool) -> bool {
        start_is_empty && self.eos_allowed()
    }

    /// The statistics after the lexeme `pre` was handed to the parser, where
    /// they were `before`: every attempt to close a row counts as a row,
    /// every row that was made counts with its items, and hidden bytes count
    /// where they were fed to the lexer again at once.
    pub open spec fn advance_counted(&self, old: &Parser, before: ParserStats, pre: PreLexeme, r: bool) -> bool {
        let n = old.num_rows_spec();
        let skip = LexemeIdx::skip_spec();
        let first = with_row(before, self.row_items(n as int).len());
        let lexer = old.lexer_view();
        let s = self.added_state(old, pre);
        let tb = transition_byte(pre);
        if !old.fits(pre) {
            self.stats_view() == before
        } else if !old.scans(pre) {
            self.stats_view() == (if pre.idx == skip {
                before
            } else {
                with_empty_row(before)
            })
        } else if pre.hidden_len > 0 {
            self.stats_view() == (ParserStats {
                hidden_bytes: if self.replays(old, pre) {
                    first.hidden_bytes.wrapping_add(pre.hidden_len)
                } else {
                    first.hidden_bytes
                },
                ..first
            })
        } else if pre.byte_next_row && s == StateID::dead_spec() {
            self.stats_view() == first
        } else if tb is Some && lexer.check_for_single_byte_lexeme_spec(s, tb->0) is Some {
            let second = lexer.check_for_single_byte_lexeme_spec(s, tb->0)->0;
            if n + 3 > 0xffff_ffff {
                self.stats_view() == first
            } else if r {
                self.stats_view() == with_row(first, self.row_items(n as int + 1).len())
            } else {
                self.stats_view() == (if second.idx == skip {
                    first
                } else {
                    with_empty_row(first)
                })
            }
        } else {
            self.stats_view() == first
        }
    }

    /// The statistics after the parser acted on what the lexer made of a
    /// byte, where they were `before`: only lexemes count.
    pub open spec fn push_counted(&self, old: &Parser, before: ParserStats, res: LexerResult, r: bool) -> bool {
        match res {
            LexerResult::Lexeme(pre) => self.advance_counted(old, before, pre, r),
            _ => self.stats_view() == before,
        }
    }

    /// The statistics after the pending lexeme was ended.
    pub open spec fn flush_counted(&self, old: &Parser, r: bool) -> bool {
        if old.pending_bytes().len() == 0 {
            self.stats_view() == old.stats_view()
        } else {
            self.push_counted(
                old,
                old.stats_view(),
                old.lexer_view().try_lexeme_end_spec(old.top().lexer_state),
                r,
            )
        }
    }
}

} // verus!
