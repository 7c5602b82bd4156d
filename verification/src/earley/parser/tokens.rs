//! Tokens: feeding the bytes of sampled tokens, and the token budgets of
//! symbols and lexemes.

use vstd::prelude::*;
use crate::earley::parser::step::transition_byte;
use crate::earley::lexer::PreLexeme;
use crate::earley::lexer::LexerResult;
use crate::earley::parser::step::opt_byte;
use crate::earley::closure::item_valid;
use crate::earley::closure::rows_view;
use crate::earley::item::Item;
use crate::earley::lexer::StateID;
use crate::earley::lexerspec::LexemeIdx;
use crate::earley::lexerspec::LexemeSet;
use crate::earley::parser::budget_of;
use crate::earley::parser::Parser;
use crate::earley::parser::RowInfo;
use crate::earley::parser::step::indices_upto;
use crate::earley::parser::step::row_text;
use crate::earley::parser::step::text_upto;

verus! {

/// The most items that a row may hold after a token was applied.
pub const MAX_ROW: usize = 100;

/// Why tokens could not be applied.
#[derive(Debug, Clone, Copy, PartialEq, Eq, Structural)]
pub enum ApplyError {
    /// The current row holds more than `MAX_ROW` items.
    RowTooLong { items: usize },
}

impl ApplyError {
    /// The error in words.
    pub fn message(&self) -> (r: &'static str)
        ensures
            r@ == "Current row has too many items; consider making your grammar left-recursive if it's right-recursive"@,
    {
        "Current row has too many items; consider making your grammar left-recursive if it's right-recursive"
    }
}

/// The bytes of `tokens`, one token after the other.
pub open spec fn flat(tokens: Seq<Vec<u8>>) -> Seq<u8>
    decreases tokens.len(),
{
    if tokens.len() == 0 {
        seq![]
    } else {
        flat(tokens.drop_last()) + tokens.last()@
    }
}

/// The bytes of `tokens` without the first `num_skip` of them.
pub open spec fn fed_bytes(tokens: Seq<Vec<u8>>, num_skip: usize) -> Seq<u8> {
    if num_skip >= flat(tokens).len() {
        seq![]
    } else {
        flat(tokens).skip(num_skip as int)
    }
}

/// Whether `fed` and `text` differ at a position that both have.
pub open spec fn mismatch(fed: Seq<u8>, text: Seq<u8>) -> bool {
    exists|k: int| 0 <= k < fed.len() && 0 <= k < text.len() && #[trigger] fed[k] != text[k]
}

/// The lexeme classes of `possible` whose budget in `budgets` exceeds
/// `taken`, one flag per class.
pub open spec fn within_budget(possible: Seq<bool>, budgets: Seq<(LexemeIdx, usize)>, taken: int) -> Seq<
    bool,
> {
    Seq::new(possible.len(), |i: int| possible[i] && taken < budget_of(budgets, LexemeIdx(i as usize)))
}

/// Whether a lexeme class of `possible` has used up its budget in `budgets`
/// after `taken` tokens.
pub open spec fn over_budget(possible: Seq<bool>, budgets: Seq<(LexemeIdx, usize)>, taken: int) -> bool {
    exists|i: int|
        0 <= i < possible.len() && #[trigger] possible[i] && taken >= budget_of(
            budgets,
            LexemeIdx(i as usize),
        )
}

/// The bytes of the first `t` tokens are among the bytes of all of them.
pub proof fn lemma_flat_take(tokens: Seq<Vec<u8>>, t: int)
    requires
        0 <= t <= tokens.len(),
    ensures
        flat(tokens.take(t)).is_prefix_of(flat(tokens)),
        t < tokens.len() ==> flat(tokens.take(t + 1)) == flat(tokens.take(t)) + tokens[t]@,
    decreases tokens.len() - t,
{
    if t < tokens.len() {
        assert(tokens.take(t + 1).drop_last() =~= tokens.take(t));
        assert(tokens.take(t + 1).last() == tokens[t]);
        lemma_flat_take(tokens, t + 1);
        let a = flat(tokens.take(t));
        let b = flat(tokens.take(t + 1));
        let c = flat(tokens);
        assert(a =~= b.subrange(0, a.len() as int));
        assert(b =~= c.subrange(0, b.len() as int));
        assert(a =~= c.subrange(0, a.len() as int));
    } else {
        assert(tokens.take(t) =~= tokens);
        assert(flat(tokens) =~= flat(tokens).subrange(0, flat(tokens).len() as int));
    }
}

/// Byte `i` of token `t` is the byte of all tokens at the position that
/// the tokens before `t` and `i` give.
pub proof fn lemma_flat_index(tokens: Seq<Vec<u8>>, t: int, i: int)
    requires
        0 <= t < tokens.len(),
        0 <= i < tokens[t]@.len(),
    ensures
        flat(tokens.take(t)).len() + i < flat(tokens).len(),
        flat(tokens)[flat(tokens.take(t)).len() + i] == tokens[t]@[i],
{
    lemma_flat_take(tokens, t);
    lemma_flat_take(tokens, t + 1);
    let b = flat(tokens.take(t + 1));
    let c = flat(tokens);
    let p = flat(tokens.take(t)).len() + i;
    assert(b =~= c.subrange(0, b.len() as int));
    assert(b[p] == c.subrange(0, b.len() as int)[p]);
}

/// Whether `r` is the verdict `words`.
pub open spec fn says(r: Result<Option<&'static str>, ApplyError>, words: Seq<char>) -> bool {
    match r {
        Ok(Some(s)) => s@ == words,
        _ => false,
    }
}

/// Whether `r` is the verdict `words`.
pub open spec fn verdict(r: Result<&'static str, ApplyError>, words: Seq<char>) -> bool {
    match r {
        Ok(s) => s@ == words,
        _ => false,
    }
}

/// The four verdicts are four different strings.
pub proof fn lemma_verdicts_differ()
    ensures
        ""@ != "static reject"@,
        "parse reject"@ != "static reject"@,
        "parse reject on max_tokens"@ != "static reject"@,
        ""@ != "parse reject"@,
        ""@ != "parse reject on max_tokens"@,
        "parse reject"@ != "parse reject on max_tokens"@,
{
    reveal_strlit("");
    reveal_strlit("static reject");
    reveal_strlit("parse reject");
    reveal_strlit("parse reject on max_tokens");
    assert(""@.len() == 0);
    assert("static reject"@.len() == 13);
    assert("parse reject"@.len() == 12);
    assert("parse reject on max_tokens"@.len() == 26);
}

/// What rows stand for depends on their lexemes only.
pub proof fn lemma_text_same(a: Seq<RowInfo>, b: Seq<RowInfo>, pending: Seq<u8>, n: nat, k: int)
    requires
        0 <= k <= a.len(),
        a.len() == b.len(),
        forall|i: int| 0 <= i < a.len() ==> (#[trigger] a[i]).lexeme == b[i].lexeme,
    ensures
        text_upto(a, pending, n, k) == text_upto(b, pending, n, k),
        indices_upto(a, pending, n, k) == indices_upto(b, pending, n, k),
    decreases k,
{
    if k > 0 {
        lemma_text_same(a, b, pending, n, k - 1);
        assert(a[k - 1].lexeme == b[k - 1].lexeme);
    }
}

/// The token that holds byte `at` of the bytes of `tokens`.
pub open spec fn token_at(tokens: Seq<Vec<u8>>, at: int) -> int
    decreases tokens.len(),
{
    if tokens.len() == 0 {
        0
    } else if at >= flat(tokens.drop_last()).len() {
        tokens.len() - 1
    } else {
        token_at(tokens.drop_last(), at)
    }
}

/// Whether byte `at` of the bytes of `tokens` is the last byte of its
/// token.
pub open spec fn ends_token(tokens: Seq<Vec<u8>>, at: int) -> bool {
    at + 1 == flat(tokens.take(token_at(tokens, at) + 1)).len()
}

/// Byte `i` of token `t` belongs to token `t`, and is the last byte of a
/// token where it is the last of `t`.
pub proof fn lemma_token_at(tokens: Seq<Vec<u8>>, t: int, i: int)
    requires
        0 <= t < tokens.len(),
        0 <= i < tokens[t]@.len(),
    ensures
        token_at(tokens, flat(tokens.take(t)).len() + i) == t,
        ends_token(tokens, flat(tokens.take(t)).len() + i) == (i + 1 == tokens[t]@.len()),
    decreases tokens.len(),
{
    let at = flat(tokens.take(t)).len() + i;
    let front = tokens.drop_last();
    lemma_flat_take(tokens, t);
    lemma_flat_take(tokens, t + 1);
    if t == tokens.len() - 1 {
        assert(tokens.take(t) =~= front);
    } else {
        assert(front.take(t) =~= tokens.take(t));
        assert(front.take(t + 1) =~= tokens.take(t + 1));
        lemma_flat_take(front, t + 1);
        assert(front[t] == tokens[t]);
        lemma_token_at(front, t, i);
    }
}

/// The token window of each row: the first and the last token that
/// touched it.
pub open spec fn windows(infos: Seq<RowInfo>) -> Seq<(usize, usize)> {
    Seq::new(infos.len(), |i: int| (infos[i].token_idx_start, infos[i].token_idx_stop))
}

/// The windows `w` after token `tok` touched the rows from `from` up to
/// `upto`, or row `from` alone where `upto` is not beyond it.
pub open spec fn widened(w: Seq<(usize, usize)>, from: int, upto: int, tok: usize) -> Seq<(usize, usize)> {
    Seq::new(
        w.len(),
        |i: int|
            if from <= i && (i <= upto || i == from) {
                (
                    if tok < w[i].0 {
                        tok
                    } else {
                        w[i].0
                    },
                    if tok > w[i].1 {
                        tok
                    } else {
                        w[i].1
                    },
                )
            } else {
                w[i]
            },
    )
}

/// The row that the walk over the first `k` bytes that were read before
/// has reached, where `rows` gives the row of each byte.
pub open spec fn row_reached(rows: Seq<usize>, k: int) -> int {
    if k <= 0 {
        0
    } else {
        rows[k - 1] as int
    }
}

/// The token windows of `n` rows after the first `k` bytes that `tokens`
/// feed behind `num_skip` were found among the bytes that were read before:
/// the windows start out empty, and each byte's token touches the rows from
/// the row that the walk had reached up to the row of the byte.
pub open spec fn windows_after(n: nat, rows: Seq<usize>, tokens: Seq<Vec<u8>>, num_skip: usize, k: int) -> Seq<
    (usize, usize),
>
    decreases k,
{
    if k <= 0 {
        Seq::new(n, |i: int| (usize::MAX, 0usize))
    } else {
        widened(
            windows_after(n, rows, tokens, num_skip, k - 1),
            row_reached(rows, k - 1),
            rows[k - 1] as int,
            token_at(tokens, num_skip + k - 1) as usize,
        )
    }
}

/// Whether `k` is the first position at which `fed` and `text` differ.
pub open spec fn differ_first_at(fed: Seq<u8>, text: Seq<u8>, k: int) -> bool {
    &&& 0 <= k < fed.len()
    &&& k < text.len()
    &&& fed[k] != text[k]
    &&& forall|j: int| 0 <= j < k ==> fed[j] == text[j]
}

/// Whether applying a byte gave `step`, a verdict or an error, and `r` is
/// that verdict or error.
pub open spec fn gives(step: Result<Option<&'static str>, ApplyError>, r: Result<&'static str, ApplyError>) -> bool {
    match step {
        Ok(None) => false,
        Ok(Some(words)) => r == Ok::<&'static str, ApplyError>(words),
        Err(e) => r == Err::<&'static str, ApplyError>(e),
    }
}

/// Whether state `j + 1` of `run` is what applying byte `from + j` of what
/// `tokens` feed behind `num_skip` made of state `j`, with no verdict.
pub open spec fn is_link(run: Seq<Parser>, tokens: Seq<Vec<u8>>, num_skip: usize, from: int, j: int) -> bool {
    &&& run[j].wf()
    &&& run[j].committed()
    &&& run[j + 1].new_byte_applied(
        &run[j],
        fed_bytes(tokens, num_skip)[from + j],
        token_at(tokens, num_skip + from + j) as usize,
        (from + j) as usize,
        ends_token(tokens, num_skip + from + j),
        Ok(None),
    )
}

/// Whether `run` holds the states from `start` to `end` that applying the
/// bytes from `from` up to `upto` of what `tokens` feed behind `num_skip`
/// went through, one state for each byte and none of them with a verdict.
pub open spec fn is_run(
    run: Seq<Parser>,
    start: Parser,
    end: Parser,
    tokens: Seq<Vec<u8>>,
    num_skip: usize,
    from: int,
    upto: int,
) -> bool {
    &&& from <= upto
    &&& run.len() == upto - from + 1
    &&& run[0] == start
    &&& run[upto - from] == end
    &&& forall|j: int| 0 <= j < upto - from ==> #[trigger] is_link(run, tokens, num_skip, from, j)
}

/// A run with one more byte applied.
pub proof fn lemma_run_more(
    run: Seq<Parser>,
    start: Parser,
    end: Parser,
    next: Parser,
    tokens: Seq<Vec<u8>>,
    num_skip: usize,
    from: int,
    upto: int,
)
    requires
        is_run(run, start, end, tokens, num_skip, from, upto),
        end.wf(),
        end.committed(),
        next.new_byte_applied(
            &end,
            fed_bytes(tokens, num_skip)[upto],
            token_at(tokens, num_skip + upto) as usize,
            upto as usize,
            ends_token(tokens, num_skip + upto),
            Ok(None),
        ),
    ensures
        is_run(run.push(next), start, next, tokens, num_skip, from, upto + 1),
{
    let longer = run.push(next);
    assert forall|j: int| 0 <= j < upto + 1 - from implies #[trigger] is_link(
        longer,
        tokens,
        num_skip,
        from,
        j,
    ) by {
        if j < upto - from {
            assert(is_link(run, tokens, num_skip, from, j));
            assert(longer[j] == run[j]);
            assert(longer[j + 1] == run[j + 1]);
        } else {
            assert(longer[j] == end);
            assert(longer[j + 1] == next);
            assert(num_skip + from + j == num_skip + upto);
        }
    }
}

/// How many tokens a lexeme that began in a row with the window start
/// `start` has taken by token `token_idx`.
pub open spec fn tokens_taken(token_idx: usize, start: usize) -> int {
    if start <= token_idx {
        token_idx + 1 - start
    } else {
        0
    }
}

impl Parser {
    /// The bytes that were read so far.
    pub open spec fn text(&self) -> Seq<u8> {
        text_upto(
            self.infos(),
            self.pending_bytes(),
            self.num_rows_spec(),
            self.num_rows_spec() as int,
        )
    }

    /// Every row's token window begins no later than token `bound`.
    pub open spec fn starts_within(&self, bound: usize) -> bool {
        forall|i: int| 0 <= i < self.infos().len() ==> (#[trigger] self.infos()[i]).token_idx_start <= bound
    }

    /// The token window of every row but the last begins no later than
    /// token `bound`.
    pub open spec fn starts_within_but_last(&self, bound: usize) -> bool {
        forall|i: int|
            0 <= i < self.infos().len() - 1 ==> (#[trigger] self.infos()[i]).token_idx_start <= bound
    }

    /// Whether the text reaches every row before the current one: there is
    /// one row only, or the last byte of the text belongs to the row before
    /// the current one or to the current one. Tokens that are applied then
    /// touch every row.
    pub open spec fn text_reaches_rows(&self) -> bool {
        let n = self.num_rows_spec();
        let rows = indices_upto(self.infos(), self.pending_bytes(), n, n as int);
        n == 1 || (self.text().len() > 0 && row_reached(rows, self.text().len() as int) + 2 >= n)
    }

    /// A row that a lexeme is scanned into begins its token window at the
    /// current token, and the windows of the rows before it stay.
    pub proof fn lemma_scanned_windows(w: Parser, p: Parser, pre: PreLexeme, bound: usize)
        requires
            p.wf(),
            p.scans(pre),
            w.scanned(&p, pre),
            p.starts_within(bound),
            p.token_idx_view() <= bound,
        ensures
            w.starts_within(bound),
    {
        let n = p.num_rows_spec();
        if p.definitive() {
            p.lemma_rows_len();
            assert(n <= p.infos().len());
            assert forall|i: int| 0 <= i < w.infos().len() implies (#[trigger] w.infos()[i]).token_idx_start
                <= bound by {
                if i < n - 1 {
                    assert(w.infos()[i] == p.infos()[i]);
                } else if i == n - 1 {
                    assert(p.infos()[n - 1].token_idx_start <= bound);
                }
            }
        }
    }

    /// What is fed leaves every token window beginning no later than token
    /// `bound`, where the current token is no later either.
    pub proof fn lemma_pushed_windows(q: Parser, p: Parser, res: LexerResult, r: bool, bound: usize)
        requires
            p.wf(),
            q.pushed(&p, res, r),
            p.starts_within(bound),
            p.token_idx_view() <= bound,
        ensures
            q.starts_within(bound),
    {
        match res {
            LexerResult::Lexeme(pre) => {
                let s = q.added_state(&p, pre);
                if !p.scans(pre) {
                } else if q.two_lexemes(&p, pre) {
                    Self::lemma_middle(q, p, pre, r);
                    let mid = q.middle(&p, pre, r);
                    let second = p.lexer_view().check_for_single_byte_lexeme_spec(s, transition_byte(pre)->0)->0;
                    Self::lemma_scanned_windows(mid, p, pre, bound);
                    if mid.scans(second) {
                        Self::lemma_scanned_windows(q, mid, second, bound);
                    }
                } else {
                    Self::lemma_scanned_windows(q, p, pre, bound);
                }
            },
            _ => {},
        }
    }

    /// Every row's token window begins no later than the current token.
    pub open spec fn windows_ok(&self) -> bool {
        forall|i: int|
            0 <= i < self.infos().len() ==> (#[trigger] self.infos()[i]).token_idx_start
                <= self.token_idx_view()
    }

    /// Nothing changed but what the row infos note of tokens and byte
    /// offsets, and the counters of tokens and bytes.
    pub open spec fn same_but_windows(&self, old: &Parser) -> bool {
        &&& self.grammar_view() == old.grammar_view()
        &&& self.lexer_view() == old.lexer_view()
        &&& self.definitive() == old.definitive()
        &&& self.trie_base() == old.trie_base()
        &&& self.last_collapse_view() == old.last_collapse_view()
        &&& self.pending_gen_grammar() == old.pending_gen_grammar()
        &&& self.gen_grammar_accepting() == old.gen_grammar_accepting()
        &&& self.stack() == old.stack()
        &&& self.rows_kept(old, old.rows_len())
        &&& self.rows_len() == old.rows_len()
        &&& self.captures_view() == old.captures_view()
        &&& self.stats_view() == old.stats_view()
        &&& self.infos().len() == old.infos().len()
        &&& forall|i: int|
            0 <= i < old.infos().len() ==> (#[trigger] self.infos()[i]).lexeme == old.infos()[i].lexeme
                && self.infos()[i].max_tokens == old.infos()[i].max_tokens
    }

    /// Whether every row's token window begins no later than the current
    /// token, as `filter_max_tokens` asks.
    pub fn token_windows_ok(&self) -> (r: bool)
        ensures
            r == self.windows_ok(),
    {
        let mut i: usize = 0;
        while i < self.row_infos.len()
            invariant
                i <= self.row_infos@.len(),
                forall|j: int|
                    0 <= j < i ==> (#[trigger] self.row_infos@[j]).token_idx_start <= self.token_idx,
            decreases self.row_infos@.len() - i,
        {
            if self.row_infos[i].token_idx_start > self.token_idx {
                assert(self.infos()[i as int].token_idx_start > self.token_idx_view());
                return false;
            }
            i += 1;
        }
        true
    }

    /// A parser whose row infos differ from those of `old` in token windows
    /// and byte offsets only, and which else differs in the counters of
    /// tokens and bytes only, is well-formed as `old` is.
    pub(crate) proof fn lemma_windows(&self, old: &Parser)
        requires
            old.wf(),
            self.grammar == old.grammar,
            self.lexer == old.lexer,
            self.scratch == old.scratch,
            self.rows == old.rows,
            self.captures == old.captures,
            self.lexer_stack == old.lexer_stack,
            self.stats == old.stats,
            self.trie_lexer_stack == old.trie_lexer_stack,
            self.last_collapse == old.last_collapse,
            self.trie_gen_grammar == old.trie_gen_grammar,
            self.trie_gen_grammar_accepting == old.trie_gen_grammar_accepting,
            self.row_infos@.len() == old.row_infos@.len(),
            forall|i: int|
                0 <= i < old.row_infos@.len() ==> (#[trigger] self.row_infos@[i]).lexeme
                    == old.row_infos@[i].lexeme && self.row_infos@[i].max_tokens
                    == old.row_infos@[i].max_tokens,
        ensures
            self.wf(),
            self.same_but_windows(old),
            self.committed() == old.committed(),
            self.pending_bytes() == old.pending_bytes(),
            self.num_rows_spec() == old.num_rows_spec(),
            self.top() == old.top(),
    {
        assert forall|i: int| #[trigger] self.row_items(i) == old.row_items(i) by {}
        assert(self.rows_wf()) by {
            assert(old.rows_wf());
        }
        assert(self.stack_wf());
        assert(self.infos_wf()) by {
            assert forall|i: int| 0 <= i < self.row_infos@.len() implies (
            #[trigger] self.row_infos@[i]).lexeme.wf() by {
                assert(old.row_infos@[i].lexeme.wf());
            }
        }
    }

    /// A parser that differs from `old` in token windows and byte offsets
    /// only has the text of `old`.
    pub proof fn lemma_windows_text(&self, old: &Parser)
        requires
            self.same_but_windows(old),
            old.committed(),
        ensures
            self.text() == old.text(),
            self.committed() == old.committed(),
            self.pending_bytes() == old.pending_bytes(),
    {
        lemma_text_same(
            self.infos(),
            old.infos(),
            old.pending_bytes(),
            old.num_rows_spec(),
            old.num_rows_spec() as int,
        );
    }

    /// Widens the token window of row `row` to take in token `tok_idx`.
    pub(crate) fn touch_row(&mut self, row: usize, tok_idx: usize)
        requires
            old(self).wf(),
            row < old(self).infos().len(),
        ensures
            final(self).wf(),
            final(self).same_but_windows(old(self)),
            final(self).committed() == old(self).committed(),
            final(self).token_idx_view() == old(self).token_idx_view(),
            final(self).byte_idx_view() == old(self).byte_idx_view(),
            forall|i: int|
                0 <= i < old(self).infos().len() && i != row ==> #[trigger] final(self).infos()[i] == old(self).infos()[i],
            final(self).infos()[row as int].start_byte_idx == old(self).infos()[row as int].start_byte_idx,
            final(self).infos()[row as int].token_idx_start == (if tok_idx < old(self).infos()[row as int].token_idx_start {
                tok_idx
            } else {
                old(self).infos()[row as int].token_idx_start
            }),
            final(self).infos()[row as int].token_idx_stop == (if tok_idx > old(self).infos()[row as int].token_idx_stop {
                tok_idx
            } else {
                old(self).infos()[row as int].token_idx_stop
            }),
    {
        self.row_infos[row].apply_token_idx(tok_idx);
        proof {
            self.lemma_windows(old(self));
        }
    }

    /// Sets the counters of tokens and bytes.
    pub(crate) fn set_position(&mut self, token_idx: usize, byte_idx: usize)
        requires
            old(self).wf(),
        ensures
            final(self).wf(),
            final(self).same_but_windows(old(self)),
            final(self).infos() == old(self).infos(),
            final(self).committed() == old(self).committed(),
            final(self).token_idx_view() == token_idx,
            final(self).byte_idx_view() == byte_idx,
    {
        self.token_idx = token_idx;
        self.byte_idx = byte_idx;
        proof {
            self.lemma_windows(old(self));
        }
    }

    /// Empties the token window of every row.
    pub(crate) fn reset_token_windows(&mut self)
        requires
            old(self).wf(),
        ensures
            final(self).wf(),
            final(self).same_but_windows(old(self)),
            final(self).committed() == old(self).committed(),
            final(self).token_idx_view() == old(self).token_idx_view(),
            final(self).byte_idx_view() == old(self).byte_idx_view(),
            forall|i: int|
                0 <= i < old(self).infos().len() ==> {
                    &&& (#[trigger] final(self).infos()[i]).token_idx_start == usize::MAX
                    &&& final(self).infos()[i].token_idx_stop == 0
                    &&& final(self).infos()[i].start_byte_idx == old(self).infos()[i].start_byte_idx
                },
    {
        let n = self.row_infos.len();
        let mut i: usize = 0;
        while i < n
            invariant
                i <= n,
                n == old(self).row_infos@.len(),
                old(self).wf(),
                self.grammar == old(self).grammar,
                self.lexer == old(self).lexer,
                self.scratch == old(self).scratch,
                self.rows == old(self).rows,
                self.captures == old(self).captures,
                self.lexer_stack == old(self).lexer_stack,
                self.stats == old(self).stats,
                self.trie_lexer_stack == old(self).trie_lexer_stack,
                self.last_collapse == old(self).last_collapse,
                self.token_idx == old(self).token_idx,
                self.byte_idx == old(self).byte_idx,
                self.trie_gen_grammar == old(self).trie_gen_grammar,
                self.trie_gen_grammar_accepting == old(self).trie_gen_grammar_accepting,
                self.row_infos@.len() == n,
                forall|k: int|
                    0 <= k < n ==> (#[trigger] self.row_infos@[k]).lexeme == old(self).row_infos@[k].lexeme
                        && self.row_infos@[k].max_tokens == old(self).row_infos@[k].max_tokens
                        && self.row_infos@[k].start_byte_idx == old(self).row_infos@[k].start_byte_idx,
                forall|k: int|
                    0 <= k < i ==> (#[trigger] self.row_infos@[k]).token_idx_start == usize::MAX
                        && self.row_infos@[k].token_idx_stop == 0,
            decreases n - i,
        {
            self.row_infos[i].token_idx_start = usize::MAX;
            self.row_infos[i].token_idx_stop = 0;
            i += 1;
        }
        proof {
            self.lemma_windows(old(self));
        }
    }

    /// What enforcing the token budgets of lexemes did after a token ended
    /// inside a lexeme, and `r` says whether the parse can go on. Where no
    /// lexeme class that is still possible has used up its budget, nothing
    /// changes. Otherwise the lexer is limited to the classes that have
    /// budget left: where that leaves a state of the lexer, it takes the
    /// place of the state on top of the stack; where it leaves none, the
    /// lexeme is forced to end here.
    pub open spec fn budget_limited(&self, old: &Parser, r: bool) -> bool {
        let top = old.top();
        let info = old.infos()[old.num_rows_spec() - 1];
        let taken = tokens_taken(old.token_idx_view(), info.token_idx_start);
        let possible = old.lexer_view().desc(top.lexer_state).possible@;
        let limit = within_budget(possible, info.max_tokens@, taken);
        let limited = old.lexer_view().limit_state_to_spec(top.lexer_state, limit);
        if !over_budget(possible, info.max_tokens@, taken) {
            r && self.unchanged(old)
        } else if limited == StateID::dead_spec() {
            self.pushed(old, old.lexed(None), r)
        } else {
            &&& r
            &&& self.frame_kept(old)
            &&& self.rows_kept(old, old.num_rows_spec())
            &&& self.infos() == old.infos()
            &&& self.captures_view() == old.captures_view()
            &&& self.stack() == old.stack().drop_last().push(
                crate::earley::parser::LexerState { lexer_state: limited, ..top },
            )
        }
    }

    /// Enforces the token budgets of lexemes after a token ended inside a
    /// lexeme. Returns false where the lexeme had to end and could not.
    pub(crate) fn limit_by_budget(&mut self) -> (r: bool)
        requires
            old(self).wf(),
            old(self).committed(),
            old(self).token_idx_view() < usize::MAX,
        ensures
            final(self).wf(),
            final(self).definitive(),
            final(self).budget_limited(old(self), r),
            r ==> final(self).committed(),
            r ==> final(self).text() == old(self).text(),
            forall|bound: usize| #[trigger]
                old(self).starts_within(bound) && old(self).token_idx_view() <= bound ==> final(self).starts_within(bound),
            final(self).grammar_view() == old(self).grammar_view(),
            final(self).lexer_view() == old(self).lexer_view(),
            final(self).token_idx_view() == old(self).token_idx_view(),
            final(self).byte_idx_view() == old(self).byte_idx_view(),
    {
        let row_idx = self.num_rows() - 1;
        let start = self.row_infos[row_idx].token_idx_start;
        let info_tokens: usize = if start <= self.token_idx {
            self.token_idx - start + 1
        } else {
            0
        };
        let lex_state = self.lexer_state().lexer_state;
        let n = self.lexer.possible_lexemes(lex_state).len();
        let mut limit = LexemeSet::new(n);
        let mut limited = false;
        let ghost possible = self.lexer_view().desc(lex_state).possible@;
        let ghost budgets = self.infos()[row_idx as int].max_tokens@;
        let mut idx: usize = 0;
        while idx < n
            invariant
                idx <= n,
                self.wf(),
                row_idx == self.num_rows_spec() - 1,
                row_idx < self.row_infos@.len(),
                self.lexer_view().valid_state(lex_state),
                possible == self.lexer_view().desc(lex_state).possible@,
                budgets == self.infos()[row_idx as int].max_tokens@,
                n == possible.len(),
                limit@.len() == n,
                forall|i: int|
                    0 <= i < idx ==> #[trigger] limit@[i] == (possible[i] && info_tokens < budget_of(
                        budgets,
                        LexemeIdx(i as usize),
                    )),
                forall|i: int| idx <= i < n ==> !#[trigger] limit@[i],
                limited == exists|i: int|
                    0 <= i < idx && #[trigger] possible[i] && info_tokens >= budget_of(
                        budgets,
                        LexemeIdx(i as usize),
                    ),
            decreases n - idx,
        {
            if self.lexer.possible_lexemes(lex_state).get(idx) {
                let max_tokens = self.row_infos[row_idx].max_tokens_for(LexemeIdx::new(idx));
                if info_tokens < max_tokens {
                    limit.set(idx, true);
                } else {
                    assert(possible[idx as int]);
                    limited = true;
                }
            }
            idx += 1;
        }
        proof {
            assert(limit@ =~= within_budget(possible, budgets, info_tokens as int));
            assert(limited == over_budget(possible, budgets, info_tokens as int));
        }
        if limited {
            let new_state = self.lexer.limit_state_to(lex_state, &limit);
            if new_state.is_dead() {
                // Nothing is left of the lexeme: it has to end here.
                let r = self.try_push_byte_definitive(None);
                proof {
                    assert(old(self).text() + opt_byte(None) =~= old(self).text());
                }
                return r;
            } else {
                let len = self.lexer_stack.len();
                self.lexer_stack[len - 1].lexer_state = new_state;
                proof {
                    let keep = (len - 1) as nat;
                    assert(self.lexer_stack@ =~= old(self).lexer_stack@.drop_last().push(
                        crate::earley::parser::LexerState { lexer_state: new_state, ..old(self).top() },
                    ));
                    assert forall|i: int| #[trigger] self.row_items(i) == old(self).row_items(i) by {}
                    assert(self.rows_wf()) by {
                        assert(old(self).rows_wf());
                    }
                    assert(self.stack_wf());
                    assert(self.infos_wf());
                    assert(self.stack().drop_last() =~= old(self).stack().drop_last());
                    assert(self.pending_bytes() =~= old(self).pending_bytes());
                }
            }
        } else {
            proof {
                assert forall|i: int| #[trigger] self.row_items(i) == old(self).row_items(i) by {}
            }
        }
        true
    }

    /// What applying a byte that was not read before did. The byte `b` of
    /// token `tok_idx`, at offset `byte_idx` of what the tokens feed, is fed
    /// for good after the counters were set and the current row's token
    /// window was widened (`touched`). Where it is refused, the verdict is
    /// "parse reject". Where it is the last byte of its token and no row was
    /// added, the token budgets of lexemes are enforced, with the verdict
    /// "parse reject on max_tokens" where that fails. Then a current row
    /// of more than `MAX_ROW` items is an error. Otherwise there is no
    /// verdict yet.
    #[verifier::opaque]
    pub open spec fn new_byte_applied(
        &self,
        old: &Parser,
        b: u8,
        tok_idx: usize,
        byte_idx: usize,
        last_of_token: bool,
        r: Result<Option<&'static str>, ApplyError>,
    ) -> bool {
        exists|touched: Parser, fed: Parser, ok: bool|
            {
                let n = old.num_rows_spec();
                let len = self.curr_items().len();
                let by_len = if len > MAX_ROW {
                    r == Err::<Option<&'static str>, ApplyError>(ApplyError::RowTooLong { items: len as usize })
                } else {
                    r == Ok::<Option<&'static str>, ApplyError>(None)
                };
                &&& touched.wf()
                &&& touched.same_but_windows(old)
                &&& touched.token_idx_view() == tok_idx
                &&& touched.byte_idx_view() == byte_idx
                &&& forall|i: int| 0 <= i < n - 1 ==> #[trigger] touched.infos()[i] == old.infos()[i]
                &&& touched.infos()[n - 1].start_byte_idx == old.infos()[n - 1].start_byte_idx
                &&& touched.infos()[n - 1].token_idx_start == (if tok_idx < old.infos()[n
                    - 1].token_idx_start {
                    tok_idx
                } else {
                    old.infos()[n - 1].token_idx_start
                })
                &&& touched.infos()[n - 1].token_idx_stop == (if tok_idx > old.infos()[n
                    - 1].token_idx_stop {
                    tok_idx
                } else {
                    old.infos()[n - 1].token_idx_stop
                })
                &&& fed.wf()
                &&& #[trigger] fed.pushed(&touched, touched.lexed(Some(b)), ok)
                &&& if !ok {
                    *self == fed && says(r, "parse reject"@)
                } else if last_of_token && fed.num_rows_spec() == n {
                    exists|within: bool|
                        {
                            &&& #[trigger] self.budget_limited(&fed, within)
                            &&& if within {
                                by_len
                            } else {
                                says(r, "parse reject on max_tokens"@)
                            }
                        }
                } else {
                    *self == fed && by_len
                }
            }
    }

    /// The rows of `self` are those of `old` with the token windows `w`, and
    /// each row info holds the number of bytes before its row.
    pub open spec fn walked(&self, old: &Parser, w: Seq<(usize, usize)>) -> bool {
        &&& self.same_but_windows(old)
        &&& self.byte_idx_view() == old.byte_idx_view()
        &&& windows(self.infos()) == w
        &&& forall|i: int|
            0 <= i < old.infos().len() ==> (#[trigger] self.infos()[i]).start_byte_idx == text_upto(
                old.infos(),
                old.pending_bytes(),
                old.num_rows_spec(),
                i,
            ).len()
    }

    /// What `start` has become after the bytes from `from` up to `upto` of
    /// what `tokens` feed behind `num_skip` were applied one after the
    /// other, each of them without a verdict.
    pub open spec fn new_bytes_fed(
        &self,
        start: &Parser,
        tokens: Seq<Vec<u8>>,
        num_skip: usize,
        from: int,
        upto: int,
    ) -> bool {
        exists|run: Seq<Parser>| #[trigger] is_run(run, *start, *self, tokens, num_skip, from, upto)
    }

    /// The walk over the bytes that were read before left `start`, and the
    /// new bytes up to `upto` were applied to it since.
    pub open spec fn fed_since(
        &self,
        old: &Parser,
        start: &Parser,
        tokens: Seq<Vec<u8>>,
        num_skip: usize,
        rows: Seq<usize>,
        upto: int,
    ) -> bool {
        let n = old.num_rows_spec();
        let text = old.text();
        &&& start.wf()
        &&& start.committed()
        &&& start.walked(old, windows_after(n, rows, tokens, num_skip, text.len() as int))
        &&& start.token_idx_view() == old.token_idx_view()
        &&& self.new_bytes_fed(start, tokens, num_skip, text.len() as int, upto)
    }

    /// What is left to do once every byte of `count` tokens was applied to
    /// `last`: the counter of tokens is `count`, and the current row's token
    /// window takes in what comes after the tokens.
    pub open spec fn closed_after(&self, last: &Parser, count: usize) -> bool {
        let n = last.num_rows_spec();
        &&& self.same_but_windows(last)
        &&& self.token_idx_view() == count
        &&& self.byte_idx_view() == last.byte_idx_view()
        &&& windows(self.infos()) == widened(windows(last.infos()), n - 1, n - 1, count)
        &&& forall|i: int|
            0 <= i < last.infos().len() ==> (#[trigger] self.infos()[i]).start_byte_idx
                == last.infos()[i].start_byte_idx
    }

    /// What applying `tokens` behind `num_skip` did to `old`, and the
    /// verdict or error `r`.
    ///
    /// The token windows are emptied. The bytes that were read before are
    /// walked, each token touching the rows of its bytes, up to the first
    /// byte that differs: the verdict is then "static reject". Where the
    /// tokens end among the bytes that were read, the rows behind them are
    /// touched by what comes after the tokens, and the verdict is empty.
    /// Otherwise the new bytes are applied one after the other to the state
    /// `start` that the walk left, up to the first that gives a verdict or
    /// an error; where none does, the verdict is empty.
    pub open spec fn tokens_applied(
        &self,
        old: &Parser,
        tokens: Seq<Vec<u8>>,
        num_skip: usize,
        r: Result<&'static str, ApplyError>,
    ) -> bool {
        let fed = fed_bytes(tokens, num_skip);
        let text = old.text();
        let n = old.num_rows_spec();
        let rows = indices_upto(old.infos(), old.pending_bytes(), n, n as int);
        if mismatch(fed, text) {
            &&& verdict(r, "static reject"@)
            &&& self.token_idx_view() == old.token_idx_view()
            &&& exists|k: int|
                {
                    &&& #[trigger] differ_first_at(fed, text, k)
                    &&& self.walked(old, windows_after(n, rows, tokens, num_skip, k + 1))
                }
        } else if fed.len() <= text.len() {
            let w = windows_after(n, rows, tokens, num_skip, fed.len() as int);
            let count = tokens.len() as usize;
            &&& verdict(r, ""@)
            &&& self.token_idx_view() == count
            &&& self.walked(old, widened(w, row_reached(rows, fed.len() as int), n - 1, count))
        } else {
            exists|start: Parser, last: Parser, upto: int|
                {
                    &&& text.len() <= upto <= fed.len()
                    &&& #[trigger] last.fed_since(old, &start, tokens, num_skip, rows, upto)
                    &&& last.wf()
                    &&& last.committed()
                    &&& if upto == fed.len() {
                        verdict(r, ""@) && self.closed_after(&last, tokens.len() as usize)
                    } else {
                        exists|step: Result<Option<&'static str>, ApplyError>|
                            {
                                &&& #[trigger] self.new_byte_applied(
                                    &last,
                                    fed[upto],
                                    token_at(tokens, num_skip + upto) as usize,
                                    upto as usize,
                                    ends_token(tokens, num_skip + upto),
                                    step,
                                )
                                &&& gives(step, r)
                            }
                    }
                }
        }
    }

    /// One more new byte applied: with no verdict the run of new bytes is one
    /// longer, and with a verdict or an error the tokens are applied.
    pub proof fn lemma_fed_more(
        &self,
        before: &Parser,
        old: &Parser,
        start: &Parser,
        tokens: Seq<Vec<u8>>,
        num_skip: usize,
        k: int,
        step: Result<Option<&'static str>, ApplyError>,
    )
        requires
            before.wf(),
            before.committed(),
            before.fed_since(
                old,
                start,
                tokens,
                num_skip,
                indices_upto(old.infos(), old.pending_bytes(), old.num_rows_spec(), old.num_rows_spec() as int),
                k,
            ),
            old.text().len() <= k < fed_bytes(tokens, num_skip).len(),
            !mismatch(fed_bytes(tokens, num_skip), old.text()),
            self.new_byte_applied(
                before,
                fed_bytes(tokens, num_skip)[k],
                token_at(tokens, num_skip + k) as usize,
                k as usize,
                ends_token(tokens, num_skip + k),
                step,
            ),
        ensures
            step == Ok::<Option<&'static str>, ApplyError>(None) ==> self.fed_since(
                old,
                start,
                tokens,
                num_skip,
                indices_upto(old.infos(), old.pending_bytes(), old.num_rows_spec(), old.num_rows_spec() as int),
                k + 1,
            ),
            forall|r: Result<&'static str, ApplyError>| #[trigger]
                gives(step, r) ==> self.tokens_applied(old, tokens, num_skip, r),
    {
        let rows = indices_upto(
            old.infos(),
            old.pending_bytes(),
            old.num_rows_spec(),
            old.num_rows_spec() as int,
        );
        if step == Ok::<Option<&'static str>, ApplyError>(None) {
            let from = old.text().len() as int;
            let run = choose|run: Seq<Parser>| #[trigger] is_run(run, *start, *before, tokens, num_skip, from, k);
            lemma_run_more(run, *start, *before, *self, tokens, num_skip, from, k);
            assert(is_run(run.push(*self), *start, *self, tokens, num_skip, from, k + 1));
        }
        assert forall|r: Result<&'static str, ApplyError>| #[trigger] gives(step, r) implies self.tokens_applied(
            old,
            tokens,
            num_skip,
            r,
        ) by {
            assert(before.fed_since(old, start, tokens, num_skip, rows, k));
        }
    }

    /// One more byte found among the bytes that were read before: its token
    /// has touched the rows up to the row of the byte.
    pub proof fn lemma_walked_more(
        &self,
        before: &Parser,
        old: &Parser,
        tokens: Seq<Vec<u8>>,
        num_skip: usize,
        rows: Seq<usize>,
        k: int,
    )
        requires
            0 <= k < rows.len(),
            forall|a: int, b: int| 0 <= a <= b < rows.len() ==> #[trigger] rows[a] <= #[trigger] rows[b],
            before.walked(old, windows_after(old.num_rows_spec(), rows, tokens, num_skip, k)),
            self.same_but_windows(before),
            self.byte_idx_view() == before.byte_idx_view(),
            self.infos().len() == before.infos().len(),
            forall|i: int|
                0 <= i < before.infos().len() ==> {
                    let from = row_reached(rows, k);
                    let tok = token_at(tokens, num_skip + k) as usize;
                    &&& (#[trigger] self.infos()[i]).start_byte_idx == before.infos()[i].start_byte_idx
                    &&& self.infos()[i].token_idx_start == (if from <= i <= rows[k] && tok
                        < before.infos()[i].token_idx_start {
                        tok
                    } else {
                        before.infos()[i].token_idx_start
                    })
                    &&& self.infos()[i].token_idx_stop == (if from <= i <= rows[k] && tok
                        > before.infos()[i].token_idx_stop {
                        tok
                    } else {
                        before.infos()[i].token_idx_stop
                    })
                },
        ensures
            self.walked(old, windows_after(old.num_rows_spec(), rows, tokens, num_skip, k + 1)),
            row_reached(rows, k) <= rows[k],
    {
        if k > 0 {
            assert(rows[k - 1] <= rows[k]);
        }
        self.lemma_windows_trans(before, old);
        assert(windows(self.infos()) =~= widened(
            windows(before.infos()),
            row_reached(rows, k),
            rows[k] as int,
            token_at(tokens, num_skip + k) as usize,
        ));
    }

    /// Applies a byte that was not read before.
    pub(crate) fn apply_new_byte(&mut self, b: u8, tok_idx: usize, byte_idx: usize, last_of_token: bool) -> (r:
        Result<Option<&'static str>, ApplyError>)
        requires
            old(self).wf(),
            old(self).committed(),
            tok_idx < usize::MAX,
        ensures
            final(self).wf(),
            final(self).definitive(),
            final(self).grammar_view() == old(self).grammar_view(),
            final(self).lexer_view() == old(self).lexer_view(),
            final(self).token_idx_view() == tok_idx,
            final(self).byte_idx_view() == byte_idx,
            final(self).new_byte_applied(old(self), b, tok_idx, byte_idx, last_of_token, r),
            r matches Ok(None) ==> final(self).committed() && final(self).curr_items().len() <= MAX_ROW,
            r matches Err(e) ==> {
                &&& final(self).committed()
                &&& e == (ApplyError::RowTooLong { items: final(self).curr_items().len() as usize })
                &&& final(self).curr_items().len() > MAX_ROW
            },
            r matches Ok(Some(s)) ==> says(r, "parse reject"@) || says(r, "parse reject on max_tokens"@),
            old(self).lexer_view().hides_nothing() && r is Ok && !(r matches Ok(Some(s))) ==> final(self).text()
                == old(self).text().push(b),
            says(r, "parse reject"@) && final(self).committed() ==> final(self).text() == old(self).text(),
            forall|bound: usize| #[trigger]
                old(self).starts_within_but_last(bound) && tok_idx <= bound ==> final(self).starts_within(
                    bound,
                ),
    {
        proof {
            reveal(Parser::new_byte_applied);
            lemma_verdicts_differ();
        }
        // The counters are set first: a row that is made by this byte
        // takes them over.
        self.set_position(tok_idx, byte_idx);
        let row_idx = self.num_rows() - 1;
        let ghost positioned = *self;
        self.touch_row(row_idx, tok_idx);
        let ghost touched = *self;
        proof {
            assert(touched.same_but_windows(old(self))) by {
                assert forall|i: int| 0 <= i < old(self).rows_len() implies #[trigger] touched.row_items(i)
                    == old(self).row_items(i) && touched.row_allowed(i) == old(self).row_allowed(i) by {
                    assert(positioned.row_items(i) == old(self).row_items(i));
                }
            }
        }
        proof {
            touched.lemma_windows_trans(&positioned, old(self));
            touched.lemma_windows_text(old(self));
            if old(self).lexer_view().hides_nothing() {
                touched.lexer_view().lemma_hides_nothing(touched.top().lexer_state, b);
            }
        }
        proof {
            assert forall|bound: usize| #[trigger]
                old(self).starts_within_but_last(bound) && tok_idx <= bound implies touched.starts_within(
                bound,
            ) by {
                assert forall|i: int| 0 <= i < touched.infos().len() implies (
                #[trigger] touched.infos()[i]).token_idx_start <= bound by {
                    if i != row_idx {
                        assert(touched.infos()[i] == positioned.infos()[i]);
                        assert(old(self).infos()[i].token_idx_start <= bound);
                    }
                }
            }
        }
        let ok = self.try_push_byte_definitive(Some(b));
        let ghost fed = *self;
        proof {
            assert(touched.text() + opt_byte(Some(b)) =~= touched.text().push(b));
        }
        if !ok {
            return Ok(Some("parse reject"));
        }
        let mut within = true;
        if last_of_token && row_idx == self.num_rows() - 1 {
            // No row was made and the token ends here: the budgets of the
            // lexemes that can still match are checked.
            within = self.limit_by_budget();
            if !within {
                return Ok(Some("parse reject on max_tokens"));
            }
        }
        let item_count = self.curr_len();
        if item_count > MAX_ROW {
            return Err(ApplyError::RowTooLong { items: item_count });
        }
        Ok(None)
    }

    /// What differs in token windows only from what differs in token
    /// windows only from `old`, differs in token windows only from `old`.
    pub proof fn lemma_windows_trans(&self, mid: &Parser, old: &Parser)
        requires
            self.same_but_windows(mid),
            mid.same_but_windows(old),
        ensures
            self.same_but_windows(old),
    {
        assert forall|i: int| 0 <= i < old.rows_len() implies #[trigger] self.row_items(i)
            == old.row_items(i) && self.row_allowed(i) == old.row_allowed(i) by {
            assert(mid.row_items(i) == old.row_items(i));
            assert(mid.row_allowed(i) == old.row_allowed(i));
            assert(self.row_items(i) == mid.row_items(i));
            assert(self.row_allowed(i) == mid.row_allowed(i));
        }
        assert forall|i: int| 0 <= i < old.infos().len() implies (#[trigger] self.infos()[i]).lexeme
            == old.infos()[i].lexeme && self.infos()[i].max_tokens == old.infos()[i].max_tokens by {
            assert(mid.infos()[i].lexeme == old.infos()[i].lexeme);
        }
    }

    /// Widens the token windows of the rows from `from` up to `upto` to
    /// take in token `tok_idx`; of row `from` alone where `upto` is not
    /// beyond it. Returns the last row that was widened.
    pub(crate) fn touch_rows_upto(&mut self, from: usize, upto: usize, tok_idx: usize) -> (r: usize)
        requires
            old(self).wf(),
            from < old(self).infos().len(),
            upto < old(self).infos().len(),
        ensures
            final(self).wf(),
            final(self).same_but_windows(old(self)),
            final(self).committed() == old(self).committed(),
            final(self).token_idx_view() == old(self).token_idx_view(),
            final(self).byte_idx_view() == old(self).byte_idx_view(),
            r == (if from >= upto {
                from
            } else {
                upto
            }),
            forall|i: int|
                0 <= i < old(self).infos().len() ==> {
                    &&& (#[trigger] final(self).infos()[i]).start_byte_idx == old(self).infos()[i].start_byte_idx
                    &&& final(self).infos()[i].token_idx_start == (if from <= i <= r && tok_idx < old(self).infos()[i].token_idx_start {
                        tok_idx
                    } else {
                        old(self).infos()[i].token_idx_start
                    })
                    &&& final(self).infos()[i].token_idx_stop == (if from <= i <= r && tok_idx > old(self).infos()[i].token_idx_stop {
                        tok_idx
                    } else {
                        old(self).infos()[i].token_idx_stop
                    })
                },
    {
        let mut row = from;
        self.touch_row(row, tok_idx);
        proof {
            assert(self.same_but_windows(old(self)));
        }
        while row < upto
            invariant
                from <= row,
                row < upto || row == from || row == upto,
                upto < old(self).infos().len(),
                from < old(self).infos().len(),
                self.wf(),
                old(self).wf(),
                self.same_but_windows(old(self)),
                self.committed() == old(self).committed(),
                self.token_idx_view() == old(self).token_idx_view(),
                self.byte_idx_view() == old(self).byte_idx_view(),
                forall|i: int|
                    0 <= i < old(self).infos().len() ==> {
                        &&& (#[trigger] self.infos()[i]).start_byte_idx == old(self).infos()[i].start_byte_idx
                        &&& self.infos()[i].token_idx_start == (if from <= i <= row && tok_idx < old(self).infos()[i].token_idx_start {
                            tok_idx
                        } else {
                            old(self).infos()[i].token_idx_start
                        })
                        &&& self.infos()[i].token_idx_stop == (if from <= i <= row && tok_idx > old(self).infos()[i].token_idx_stop {
                            tok_idx
                        } else {
                            old(self).infos()[i].token_idx_stop
                        })
                    },
            decreases upto - row,
        {
            row += 1;
            let ghost before = *self;
            self.touch_row(row, tok_idx);
            proof {
                self.lemma_windows_trans(&before, old(self));
            }
        }
        row
    }

    /// Feeds the parser the bytes of `tokens`, the tokens that the model
    /// produced so far, without the first `num_skip` bytes, and notes for
    /// every row which tokens touched it.
    ///
    /// Bytes that were read before are only compared with what was read: a
    /// byte that differs gives the verdict "static reject". The bytes after
    /// them are fed for good, one after the other: a byte that is refused
    /// gives the verdict "parse reject", a lexeme that runs out of token
    /// budget and cannot end gives "parse reject on max_tokens", and a row
    /// of more than `MAX_ROW` items is an error. With every byte applied
    /// the verdict is the empty string.
    pub fn apply_tokens(&mut self, tokens: &Vec<Vec<u8>>, num_skip: usize) -> (r: Result<
        &'static str,
        ApplyError,
    >)
        requires
            old(self).wf(),
            old(self).committed(),
            flat(tokens@).len() <= usize::MAX,
        ensures
            final(self).wf(),
            final(self).definitive(),
            final(self).grammar_view() == old(self).grammar_view(),
            final(self).lexer_view() == old(self).lexer_view(),
            r is Ok ==> verdict(r, ""@) || verdict(r, "parse reject"@) || verdict(r, "static reject"@)
                || verdict(r, "parse reject on max_tokens"@),
            verdict(r, "static reject"@) <==> mismatch(fed_bytes(tokens@, num_skip), old(self).text()),
            verdict(r, "static reject"@) ==> final(self).same_but_windows(old(self)),
            !mismatch(fed_bytes(tokens@, num_skip), old(self).text()) && fed_bytes(
                tokens@,
                num_skip,
            ).len() <= old(self).text().len() ==> {
                &&& verdict(r, ""@)
                &&& final(self).same_but_windows(old(self))
                &&& final(self).windows_ok()
            },
            verdict(r, ""@) ==> final(self).committed() && final(self).token_idx_view() == tokens@.len(),
            r matches Err(e) ==> {
                &&& final(self).committed()
                &&& e == (ApplyError::RowTooLong { items: final(self).curr_items().len() as usize })
                &&& final(self).curr_items().len() > MAX_ROW
            },
            final(self).tokens_applied(old(self), tokens@, num_skip, r),
            verdict(r, ""@) && old(self).text_reaches_rows() ==> final(self).windows_ok(),
            old(self).lexer_view().hides_nothing() && verdict(r, ""@) ==> final(self).text() == (if fed_bytes(
                tokens@,
                num_skip,
            ).len() <= old(self).text().len() {
                old(self).text()
            } else {
                fed_bytes(tokens@, num_skip)
            }),
            old(self).lexer_view().hides_nothing() && verdict(r, "parse reject"@) && final(self).committed() ==> {
                &&& old(self).text().len() <= final(self).text().len() < fed_bytes(tokens@, num_skip).len()
                &&& final(self).text() == fed_bytes(tokens@, num_skip).take(final(self).text().len() as int)
            },
    {
        proof {
            lemma_verdicts_differ();
        }
        let ghost little = self.lexer_view().hides_nothing();
        let ghost reach = self.text_reaches_rows();
        let total = tokens.len();
        self.reset_token_windows();
        let ghost reset = *self;
        let (indices, grm_bytes) = self.get_bytes_and_lexeme_indices();
        let ghost measured = *self;
        let ghost text = old(self).text();
        let ghost fed = fed_bytes(tokens@, num_skip);
        let ghost all = flat(tokens@);
        let ghost n0 = old(self).num_rows_spec();
        proof {
            assert(reset.pending_bytes() == old(self).pending_bytes());
            lemma_text_same(reset.infos(), old(self).infos(), old(self).pending_bytes(), n0, n0 as int);
            assert(grm_bytes@ == text);
            assert(measured.same_but_windows(&reset)) by {
                assert forall|i: int| 0 <= i < reset.infos().len() implies (
                #[trigger] measured.infos()[i]).lexeme == reset.infos()[i].lexeme
                    && measured.infos()[i].max_tokens == reset.infos()[i].max_tokens by {}
            }
            measured.lemma_windows_trans(&reset, old(self));
            assert(tokens@.take(0) =~= Seq::<Vec<u8>>::empty());
            assert(windows(measured.infos()) =~= windows_after(n0, indices@, tokens@, num_skip, 0));
            assert forall|i: int| 0 <= i < old(self).infos().len() implies (
            #[trigger] measured.infos()[i]).start_byte_idx == text_upto(
                old(self).infos(),
                old(self).pending_bytes(),
                n0,
                i,
            ).len() by {
                lemma_text_same(reset.infos(), old(self).infos(), old(self).pending_bytes(), n0, i);
            }
        }
        let ghost mut start = *self;
        let mut last_lexeme: usize = 0;
        let mut byte_idx: usize = 0;
        let mut skip: usize = num_skip;
        let mut dynamic = false;
        let mut t: usize = 0;
        while t < tokens.len()
            invariant
                t <= tokens@.len(),
                old(self).wf(),
                self.wf(),
                self.committed(),
                self.grammar_view() == old(self).grammar_view(),
                self.lexer_view() == old(self).lexer_view(),
                text == old(self).text(),
                fed == fed_bytes(tokens@, num_skip),
                all == flat(tokens@),
                all.len() <= usize::MAX,
                n0 == old(self).num_rows_spec(),
                grm_bytes@ == text,
                indices@.len() == text.len(),
                forall|k: int| 0 <= k < indices@.len() ==> #[trigger] indices@[k] < n0,
                flat(tokens@.take(t as int)).len() <= all.len(),
                flat(tokens@.take(t as int)).len() <= num_skip ==> skip == num_skip - flat(
                    tokens@.take(t as int),
                ).len() && byte_idx == 0,
                flat(tokens@.take(t as int)).len() > num_skip ==> skip == 0 && byte_idx == flat(
                    tokens@.take(t as int),
                ).len() - num_skip,
                last_lexeme < self.infos().len(),
                !dynamic ==> {
                    &&& byte_idx <= text.len()
                    &&& self.same_but_windows(old(self))
                    &&& forall|j: int|
                        0 <= j < last_lexeme ==> (#[trigger] self.infos()[j]).token_idx_start
                            <= tokens@.len()
                    &&& self.walked(old(self), windows_after(n0, indices@, tokens@, num_skip, byte_idx as int))
                    &&& self.token_idx_view() == old(self).token_idx_view()
                    &&& last_lexeme == row_reached(indices@, byte_idx as int)
                },
                dynamic ==> byte_idx >= text.len() && fed.len() > text.len(),
                dynamic ==> self.fed_since(old(self), &start, tokens@, num_skip, indices@, byte_idx as int),
                dynamic ==> last_lexeme == self.num_rows_spec() - 1,
                little == old(self).lexer_view().hides_nothing(),
                reach == old(self).text_reaches_rows(),
                total == tokens@.len(),
                dynamic && reach ==> self.starts_within(total),
                !dynamic && byte_idx > 0 ==> self.infos()[last_lexeme as int].token_idx_start <= total,
                dynamic && little ==> self.text() == fed.take(byte_idx as int),
                byte_idx <= fed.len(),
                indices@ == indices_upto(old(self).infos(), old(self).pending_bytes(), n0, n0 as int),
                forall|a: int, b: int| 0 <= a <= b < indices@.len() ==> #[trigger] indices@[a] <= #[trigger] indices@[b],
                forall|k: int| 0 <= k < byte_idx && k < text.len() ==> #[trigger] fed[k] == text[k],
            decreases tokens@.len() - t,
        {
            let tok = &tokens[t];
            let ghost before_tok = flat(tokens@.take(t as int)).len();
            proof {
                lemma_flat_take(tokens@, t as int);
                lemma_flat_take(tokens@, t + 1);
            }
            let mut i: usize = 0;
            while i < tok.len()
                invariant
                    i <= tok@.len(),
                    t < tokens@.len(),
                    *tok == tokens@[t as int],
                    tokens@.len() <= usize::MAX,
                    before_tok == flat(tokens@.take(t as int)).len(),
                    before_tok + tok@.len() <= all.len(),
                    old(self).wf(),
                    self.wf(),
                    self.committed(),
                    self.grammar_view() == old(self).grammar_view(),
                    self.lexer_view() == old(self).lexer_view(),
                    text == old(self).text(),
                    fed == fed_bytes(tokens@, num_skip),
                    all == flat(tokens@),
                    all.len() <= usize::MAX,
                    n0 == old(self).num_rows_spec(),
                    grm_bytes@ == text,
                    indices@.len() == text.len(),
                    forall|k: int| 0 <= k < indices@.len() ==> #[trigger] indices@[k] < n0,
                    before_tok + i <= num_skip ==> skip == num_skip - (before_tok + i) && byte_idx == 0,
                    before_tok + i > num_skip ==> skip == 0 && byte_idx == before_tok + i - num_skip,
                    last_lexeme < self.infos().len(),
                    !dynamic ==> {
                        &&& byte_idx <= text.len()
                        &&& self.same_but_windows(old(self))
                        &&& forall|j: int|
                            0 <= j < last_lexeme ==> (#[trigger] self.infos()[j]).token_idx_start
                                <= tokens@.len()
                        &&& self.walked(old(self), windows_after(n0, indices@, tokens@, num_skip, byte_idx as int))
                        &&& self.token_idx_view() == old(self).token_idx_view()
                        &&& last_lexeme == row_reached(indices@, byte_idx as int)
                    },
                    dynamic ==> byte_idx >= text.len() && fed.len() > text.len(),
                    dynamic ==> self.fed_since(old(self), &start, tokens@, num_skip, indices@, byte_idx as int),
                    dynamic ==> last_lexeme == self.num_rows_spec() - 1,
                    little == old(self).lexer_view().hides_nothing(),
                    reach == old(self).text_reaches_rows(),
                    total == tokens@.len(),
                    dynamic && reach ==> self.starts_within(total),
                    !dynamic && byte_idx > 0 ==> self.infos()[last_lexeme as int].token_idx_start <= total,
                    dynamic && little ==> self.text() == fed.take(byte_idx as int),
                    byte_idx <= fed.len(),
                    indices@ == indices_upto(old(self).infos(), old(self).pending_bytes(), n0, n0 as int),
                    forall|a: int, b: int| 0 <= a <= b < indices@.len() ==> #[trigger] indices@[a] <= #[trigger] indices@[b],
                    forall|k: int| 0 <= k < byte_idx && k < text.len() ==> #[trigger] fed[k] == text[k],
                decreases tok@.len() - i,
            {
                let b = tok[i];
                proof {
                    lemma_flat_index(tokens@, t as int, i as int);
                    lemma_token_at(tokens@, t as int, i as int);
                }
                if skip > 0 {
                    skip -= 1;
                } else {
                    proof {
                        assert(fed[byte_idx as int] == b);
                        assert(before_tok + i == num_skip + byte_idx);
                    }
                    if byte_idx >= grm_bytes.len() {
                        proof {
                            if !dynamic {
                                start = *self;
                                self.lemma_windows_text(old(self));
                                assert(byte_idx == text.len());
                                assert(self.text() =~= fed.take(byte_idx as int));
                                assert(is_run(
                                    seq![start],
                                    start,
                                    start,
                                    tokens@,
                                    num_skip,
                                    text.len() as int,
                                    byte_idx as int,
                                ));
                            }
                        }
                        let ghost before = *self;
                        proof {
                            if reach {
                                assert(before.starts_within_but_last(total)) by {
                                    if !dynamic {
                                        assert(before.infos().len() == n0);
                                        assert(byte_idx == text.len());
                                        assert forall|j: int| 0 <= j < before.infos().len() - 1 implies (
                                        #[trigger] before.infos()[j]).token_idx_start <= total by {
                                            assert(n0 > 1);
                                            assert(j <= last_lexeme);
                                        }
                                    }
                                }
                            }
                        }
                        let applied = self.apply_new_byte(b, t, byte_idx, i + 1 == tok.len());
                        dynamic = true;
                        proof {
                            lemma_verdicts_differ();
                            assert(!mismatch(fed, text)) by {
                                if mismatch(fed, text) {
                                    let k = choose|k: int|
                                        0 <= k < fed.len() && 0 <= k < text.len() && #[trigger] fed[k]
                                            != text[k];
                                    assert(fed[k] == text[k]);
                                }
                            }
                            assert(before.fed_since(old(self), &start, tokens@, num_skip, indices@, byte_idx as int));
                            assert(token_at(tokens@, num_skip + byte_idx) as usize == t);
                            self.lemma_fed_more(&before, old(self), &start, tokens@, num_skip, byte_idx as int, applied);
                            if little {
                                assert(before.text() == fed.take(byte_idx as int));
                                assert(fed.take(byte_idx as int).len() == byte_idx);
                                if applied is Ok && !(applied matches Ok(Some(s))) {
                                    assert(self.text() =~= fed.take(byte_idx + 1));
                                }
                            }
                        }
                        match applied {
                            Ok(None) => {},
                            Ok(Some(words)) => {
                                proof {
                                    assert(gives(applied, Ok(words)));
                                }
                                return Ok(words);
                            },
                            Err(e) => {
                                proof {
                                    assert(gives(applied, Err(e)));
                                }
                                return Err(e);
                            },
                        }
                        last_lexeme = self.num_rows() - 1;
                    } else {
                        let ghost before = *self;
                        let ghost reached = last_lexeme;
                        last_lexeme = self.touch_rows_upto(last_lexeme, indices[byte_idx], t);
                        proof {
                            self.lemma_windows_trans(&before, old(self));
                            assert(token_at(tokens@, num_skip + byte_idx) as usize == t);
                            self.lemma_walked_more(&before, old(self), tokens@, num_skip, indices@, byte_idx as int);
                            assert(self.infos()[last_lexeme as int].token_idx_start <= t);
                        }
                        if grm_bytes[byte_idx] != b {
                            proof {
                                assert(fed[byte_idx as int] != text[byte_idx as int]);
                                assert(mismatch(fed, text));
                                assert(differ_first_at(fed, text, byte_idx as int));
                                lemma_verdicts_differ();
                            }
                            return Ok("static reject");
                        }
                    }
                    byte_idx += 1;
                }
                i += 1;
            }
            t += 1;
        }
        proof {
            assert(tokens@.take(tokens@.len() as int) =~= tokens@);
            assert(byte_idx == fed.len());
        }
        let ghost walked = *self;
        let ghost from = last_lexeme;
        let count = tokens.len();
        proof {
            assert(walked.committed());
        }
        self.set_position(count, self.byte_idx);
        let ghost placed = *self;
        proof {
            if !dynamic {
                self.lemma_windows_trans(&walked, old(self));
            }
        }
        proof {
            lemma_verdicts_differ();
            assert(!mismatch(fed, text)) by {
                if mismatch(fed, text) {
                    let k = choose|k: int|
                        0 <= k < fed.len() && 0 <= k < text.len() && #[trigger] fed[k] != text[k];
                    assert(fed[k] == text[k]);
                }
            }
        }
        // Every row that the tokens did not reach is touched by what
        // comes after them.
        while last_lexeme < self.row_infos.len()
            invariant
                from <= last_lexeme <= self.infos().len(),
                old(self).wf(),
                walked.wf(),
                walked.committed(),
                reach == old(self).text_reaches_rows(),
                dynamic && reach ==> self.starts_within(count),
                dynamic && little ==> walked.text() == fed,
                dynamic ==> fed.len() > text.len(),
                !dynamic ==> fed.len() <= text.len() && walked.same_but_windows(old(self)),
                old(self).committed(),
                little == old(self).lexer_view().hides_nothing(),
                text == old(self).text(),
                fed == fed_bytes(tokens@, num_skip),
                self.wf(),
                self.committed(),
                self.grammar_view() == old(self).grammar_view(),
                self.lexer_view() == old(self).lexer_view(),
                self.token_idx_view() == count,
                self.byte_idx_view() == walked.byte_idx_view(),
                count == tokens@.len(),
                !mismatch(fed, text),
                ""@ != "static reject"@,
                !dynamic ==> {
                    &&& self.same_but_windows(old(self))
                    &&& forall|j: int|
                        0 <= j < last_lexeme ==> (#[trigger] self.infos()[j]).token_idx_start
                            <= tokens@.len()
                },
                self.same_but_windows(&walked),
                forall|i: int|
                    0 <= i < walked.infos().len() ==> {
                        &&& (#[trigger] self.infos()[i]).start_byte_idx == walked.infos()[i].start_byte_idx
                        &&& windows(self.infos())[i] == (if from <= i < last_lexeme {
                            widened(windows(walked.infos()), i, i, count)[i]
                        } else {
                            windows(walked.infos())[i]
                        })
                    },
            decreases self.infos().len() - last_lexeme,
        {
            let ghost before = *self;
            self.touch_row(last_lexeme, count);
            proof {
                self.lemma_windows_trans(&before, &walked);
                if !dynamic {
                    self.lemma_windows_trans(&before, old(self));
                    assert forall|j: int| 0 <= j < last_lexeme + 1 implies (
                    #[trigger] self.infos()[j]).token_idx_start <= tokens@.len() by {
                        if j < last_lexeme {
                            assert(self.infos()[j] == before.infos()[j]);
                        }
                    }
                }
                assert forall|i: int| 0 <= i < walked.infos().len() implies {
                    &&& (#[trigger] self.infos()[i]).start_byte_idx == walked.infos()[i].start_byte_idx
                    &&& windows(self.infos())[i] == (if from <= i < last_lexeme + 1 {
                        widened(windows(walked.infos()), i, i, count)[i]
                    } else {
                        windows(walked.infos())[i]
                    })
                } by {
                    if i != last_lexeme {
                        assert(self.infos()[i] == before.infos()[i]);
                    }
                    assert(windows(before.infos())[i] == (if from <= i < last_lexeme {
                        widened(windows(walked.infos()), i, i, count)[i]
                    } else {
                        windows(walked.infos())[i]
                    }));
                }
            }
            last_lexeme += 1;
        }
        proof {
            let n = walked.infos().len() as int;
            self.lemma_windows_text(&walked);
            if dynamic {
                assert(fed.take(fed.len() as int) =~= fed);
            } else {
                walked.lemma_windows_text(old(self));
            }
            assert(windows(self.infos()) =~= widened(windows(walked.infos()), from as int, n - 1, count));
            if dynamic {
                assert(self.closed_after(&walked, count));
                assert(walked.fed_since(old(self), &start, tokens@, num_skip, indices@, fed.len() as int));
            } else {
                assert(self.walked(
                    old(self),
                    widened(
                        windows_after(n0, indices@, tokens@, num_skip, fed.len() as int),
                        row_reached(indices@, fed.len() as int),
                        n0 - 1,
                        count,
                    ),
                ));
            }
        }
        Ok("")
    }

    /// The token at which the rule of `it` began: the start of the token
    /// window of the row after the rule's origin; the current token where
    /// that row does not exist yet.
    pub open spec fn span_start(&self, it: Item) -> usize {
        let row = it.start_spec() + 1;
        if row < self.num_rows_spec() {
            self.infos()[row as int].token_idx_start
        } else {
            self.token_idx_view()
        }
    }

    /// Whether the symbol that `it` is a rule of has token budget left: it
    /// has no budget, or the tokens since the rule began are fewer than its
    /// budget.
    pub open spec fn within_symbol_budget(&self, it: Item) -> bool {
        let g = self.grammar_view();
        let max_tokens = g.symbol(g.lhs_spec(it.rule_spec())).props.max_tokens;
        max_tokens == usize::MAX || self.token_idx_view() - self.span_start(it) < max_tokens
    }

    /// The items of `row` whose symbols have token budget left, in order.
    pub open spec fn kept(&self, row: Seq<Item>) -> Seq<Item>
        decreases row.len(),
    {
        if row.len() == 0 {
            seq![]
        } else {
            let rest = self.kept(row.drop_last());
            if self.within_symbol_budget(row.last()) {
                rest.push(row.last())
            } else {
                rest
            }
        }
    }

    /// What is kept of a row are items of the row, and none twice where the
    /// row holds none twice.
    pub proof fn lemma_kept(&self, row: Seq<Item>)
        ensures
            self.kept(row).len() <= row.len(),
            forall|k: int|
                0 <= k < self.kept(row).len() ==> row.contains(#[trigger] self.kept(row)[k])
                    && self.within_symbol_budget(self.kept(row)[k]),
            forall|i: int|
                0 <= i < row.len() && self.within_symbol_budget(row[i]) ==> self.kept(row).contains(
                    #[trigger] row[i],
                ),
            row.no_duplicates() ==> self.kept(row).no_duplicates(),
        decreases row.len(),
    {
        if row.len() > 0 {
            let front = row.drop_last();
            self.lemma_kept(front);
            let rest = self.kept(front);
            let out = self.kept(row);
            assert forall|k: int| 0 <= k < out.len() implies row.contains(#[trigger] out[k])
                && self.within_symbol_budget(out[k]) by {
                if k < rest.len() {
                    assert(front.contains(rest[k]));
                    let i = choose|i: int| 0 <= i < front.len() && front[i] == rest[k];
                    assert(row[i] == rest[k]);
                } else {
                    assert(row[row.len() - 1] == out[k]);
                }
            }
            assert forall|i: int| 0 <= i < row.len() && self.within_symbol_budget(
                row[i],
            ) implies out.contains(#[trigger] row[i]) by {
                if i < front.len() {
                    assert(front[i] == row[i]);
                    assert(rest.contains(front[i]));
                    let k = choose|k: int| 0 <= k < rest.len() && rest[k] == front[i];
                    assert(out[k] == row[i]);
                } else {
                    assert(out[out.len() - 1] == row[i]);
                }
            }
            if row.no_duplicates() {
                assert(front.no_duplicates()) by {
                    assert forall|a: int, b: int| 0 <= a < front.len() && 0 <= b < front.len() && a
                        != b implies front[a] != front[b] by {
                        assert(front[a] == row[a] && front[b] == row[b]);
                    }
                }
                if self.within_symbol_budget(row.last()) {
                    assert forall|a: int, b: int| 0 <= a < out.len() && 0 <= b < out.len() && a
                        != b implies out[a] != out[b] by {
                        if a < rest.len() && b < rest.len() {
                        } else if a < rest.len() {
                            assert(front.contains(rest[a]));
                            let i = choose|i: int| 0 <= i < front.len() && front[i] == rest[a];
                            assert(row[i] != row[row.len() - 1]);
                        } else {
                            assert(front.contains(rest[b]));
                            let i = choose|i: int| 0 <= i < front.len() && front[i] == rest[b];
                            assert(row[i] != row[row.len() - 1]);
                        }
                    }
                }
            }
        }
    }

    /// Whether the symbol that `item` is a rule of has token budget left.
    fn item_within_budget(&self, item: Item) -> (r: bool)
        requires
            self.grammar_view().wf(),
            self.grammar_view().valid_rule(item.rule_spec()),
            self.num_rows_spec() <= self.infos().len(),
            self.lexer_stack@.len() >= 1,
            self.lexer_stack@.last().row_idx < 0xffff_ffff,
            self.windows_ok(),
        ensures
            r == self.within_symbol_budget(item),
    {
        proof {
            assert(self.grammar_view().rule_wf(item.rule_spec()));
        }
        let lhs = self.grammar.sym_idx_lhs(item.rule_idx());
        let max_tokens = self.grammar.sym_data(lhs).props.max_tokens;
        if max_tokens == usize::MAX {
            return true;
        }
        let n = self.lexer_stack[self.lexer_stack.len() - 1].row_idx as usize + 1;
        let start = item.start_pos();
        let start_token_idx = if start < n - 1 {
            assert(self.infos()[start + 1].token_idx_start <= self.token_idx_view());
            self.row_infos[start + 1].token_idx_start
        } else {
            self.token_idx
        };
        self.token_idx - start_token_idx < max_tokens
    }

    /// What holds while the rows are swept: the rows before `idx` hold what
    /// is kept of them, one after the other from the start of the item
    /// array up to `dst`; the rows from `idx` on, and the items from `read`
    /// on, are as they were.
    pub(crate) open spec fn sweeping(&self, old: &Parser, idx: nat, dst: nat, read: nat) -> bool {
        let n = old.num_rows_spec();
        &&& self.grammar == old.grammar
        &&& self.lexer == old.lexer
        &&& self.row_infos == old.row_infos
        &&& self.captures == old.captures
        &&& self.lexer_stack == old.lexer_stack
        &&& self.stats == old.stats
        &&& self.trie_lexer_stack == old.trie_lexer_stack
        &&& self.last_collapse == old.last_collapse
        &&& self.token_idx == old.token_idx
        &&& self.byte_idx == old.byte_idx
        &&& self.trie_gen_grammar == old.trie_gen_grammar
        &&& self.trie_gen_grammar_accepting == old.trie_gen_grammar_accepting
        &&& self.scratch.definitive == old.scratch.definitive
        &&& self.scratch.row_start == old.scratch.row_start
        &&& self.scratch.row_end == old.scratch.row_end
        &&& self.scratch.items@.len() == old.scratch.items@.len()
        &&& self.scratch.item_props@.len() == old.scratch.item_props@.len()
        &&& self.rows@.len() == old.rows@.len()
        &&& idx <= n
        &&& dst <= read <= old.scratch.items@.len()
        &&& forall|k: int| idx <= k < old.rows@.len() ==> #[trigger] self.rows@[k] == old.rows@[k]
        &&& forall|p: int|
            read <= p < old.scratch.items@.len() ==> #[trigger] self.scratch.items@[p]
                == old.scratch.items@[p]
        &&& idx < n ==> read <= old.rows@[idx as int].first_item
        &&& idx > 0 ==> self.rows@[idx - 1].last_item == dst && old.rows@[idx - 1].last_item <= read
        &&& idx == 0 ==> dst == 0
        &&& idx > 0 ==> self.rows@[0].first_item == 0
        &&& forall|k: int| 0 < k < idx ==> (#[trigger] self.rows@[k]).first_item == self.rows@[k - 1].last_item
        &&& forall|k: int|
            0 <= k < idx ==> {
                &&& (#[trigger] self.rows@[k]).allowed_lexemes == old.rows@[k].allowed_lexemes
                &&& self.rows@[k].first_item <= self.rows@[k].last_item <= dst
                &&& self.rows@[k].last_item <= old.rows@[k].last_item
                &&& self.row_items(k) == old.kept(old.row_items(k))
            }
        &&& forall|k: int, j: int|
            0 <= k < j < idx ==> (#[trigger] self.rows@[k]).last_item <= (
            #[trigger] self.rows@[j]).first_item
    }

    /// Takes out of every live row the items of symbols that have used up
    /// their token budget: an item stays if its symbol has no budget, or if
    /// fewer tokens than the budget were sampled since the item's rule
    /// began. The order of the items that stay is kept, and the rows are
    /// moved together: the first begins at the first item slot, and each
    /// begins where the one before it ends. Nothing else changes.
    pub fn filter_max_tokens(&mut self)
        requires
            old(self).wf(),
            old(self).committed(),
            old(self).windows_ok(),
        ensures
            final(self).wf(),
            final(self).committed(),
            final(self).frame_kept(old(self)),
            final(self).stack() == old(self).stack(),
            final(self).infos() == old(self).infos(),
            final(self).captures_view() == old(self).captures_view(),
            final(self).stats_view() == old(self).stats_view(),
            forall|i: int|
                0 <= i < old(self).num_rows_spec() ==> {
                    &&& #[trigger] final(self).row_items(i) == old(self).kept(old(self).row_items(i))
                    &&& final(self).row_allowed(i) == old(self).row_allowed(i)
                },
            final(self).row_first(0) == 0,
            forall|i: int|
                0 < i < old(self).num_rows_spec() ==> #[trigger] final(self).row_first(i) == final(self).row_last(i - 1),
    {
        let n = self.num_rows();
        let mut dst: usize = 0;
        let mut idx: usize = 0;
        let ghost mut read: nat = 0;
        while idx < n
            invariant
                idx <= n,
                n == old(self).num_rows_spec(),
                old(self).wf(),
                old(self).committed(),
                old(self).windows_ok(),
                self.sweeping(old(self), idx as nat, dst as nat, read),
            decreases n - idx,
        {
            let first = self.rows[idx].first_item;
            let last = self.rows[idx].last_item;
            let ghost row = old(self).row_items(idx as int);
            let ghost entered = *self;
            let row_dst = dst;
            self.rows[idx].first_item = dst;
            let mut i: usize = first;
            proof {
                assert(row.take(0) =~= Seq::<Item>::empty());
                assert(self.scratch.items@.subrange(row_dst as int, dst as int) =~= Seq::<Item>::empty());
                assert(old(self).rows@[idx as int].last_item <= old(self).scratch.item_props@.len());
            }
            while i < last
                invariant
                    first <= i <= last,
                    row_dst <= dst <= i,
                    idx < n,
                    n == old(self).num_rows_spec(),
                    old(self).wf(),
                    old(self).committed(),
                    old(self).windows_ok(),
                    first == old(self).rows@[idx as int].first_item,
                    last == old(self).rows@[idx as int].last_item,
                    last <= old(self).scratch.items@.len(),
                    last <= old(self).scratch.item_props@.len(),
                    row == old(self).row_items(idx as int),
                    entered.sweeping(old(self), idx as nat, row_dst as nat, read),
                    self.grammar == old(self).grammar,
                    self.lexer == old(self).lexer,
                    self.row_infos == old(self).row_infos,
                    self.captures == old(self).captures,
                    self.lexer_stack == old(self).lexer_stack,
                    self.stats == old(self).stats,
                    self.trie_lexer_stack == old(self).trie_lexer_stack,
                    self.last_collapse == old(self).last_collapse,
                    self.token_idx == old(self).token_idx,
                    self.byte_idx == old(self).byte_idx,
                    self.trie_gen_grammar == old(self).trie_gen_grammar,
                    self.trie_gen_grammar_accepting == old(self).trie_gen_grammar_accepting,
                    self.scratch.definitive == old(self).scratch.definitive,
                    self.scratch.row_start == old(self).scratch.row_start,
                    self.scratch.row_end == old(self).scratch.row_end,
                    self.scratch.items@.len() == old(self).scratch.items@.len(),
                    self.scratch.item_props@.len() == old(self).scratch.item_props@.len(),
                    self.rows@.len() == old(self).rows@.len(),
                    forall|k: int|
                        0 <= k < self.rows@.len() && k != idx ==> #[trigger] self.rows@[k]
                            == entered.rows@[k],
                    self.rows@[idx as int].first_item == row_dst,
                    self.rows@[idx as int].last_item == last,
                    self.rows@[idx as int].allowed_lexemes == old(self).rows@[idx as int].allowed_lexemes,
                    forall|p: int|
                        0 <= p < row_dst ==> #[trigger] self.scratch.items@[p] == entered.scratch.items@[p],
                    forall|p: int|
                        i <= p < old(self).scratch.items@.len() ==> #[trigger] self.scratch.items@[p]
                            == old(self).scratch.items@[p],
                    self.scratch.items@.subrange(row_dst as int, dst as int) == old(self).kept(
                        row.take(i - first),
                    ),
                decreases last - i,
            {
                let item = self.scratch.items[i];
                proof {
                    assert(row[i - first] == item);
                    old(self).lemma_live_item_valid(idx as int, i - first);
                    assert(row.take(i + 1 - first).drop_last() =~= row.take(i - first));
                    assert(row.take(i + 1 - first).last() == item);
                    assert(self.within_symbol_budget(item) == old(self).within_symbol_budget(item));
                }
                if self.item_within_budget(item) {
                    let props = self.scratch.item_props[i];
                    let ghost before_items = self.scratch.items@;
                    self.scratch.items[dst] = item;
                    self.scratch.item_props[dst] = props;
                    proof {
                        assert(self.scratch.items@.subrange(row_dst as int, dst + 1)
                            =~= before_items.subrange(row_dst as int, dst as int).push(item));
                    }
                    dst += 1;
                }
                i += 1;
            }
            self.rows[idx].last_item = dst;
            proof {
                assert(row.take(last - first) =~= row);
                let next = (idx + 1) as nat;
                let new_read = last as nat;
                assert(self.row_items(idx as int) == old(self).kept(row));
                assert forall|k: int| 0 <= k < idx implies {
                    &&& (#[trigger] self.rows@[k]).allowed_lexemes == old(self).rows@[k].allowed_lexemes
                    &&& self.rows@[k].first_item <= self.rows@[k].last_item <= dst
                    &&& self.rows@[k].last_item <= old(self).rows@[k].last_item
                    &&& self.row_items(k) == old(self).kept(old(self).row_items(k))
                } by {
                    assert(self.rows@[k] == entered.rows@[k]);
                    assert(entered.row_items(k) == old(self).kept(old(self).row_items(k)));
                    assert(self.row_items(k) =~= entered.row_items(k));
                }
                assert forall|k: int, j: int| 0 <= k < j < next implies (
                #[trigger] self.rows@[k]).last_item <= (#[trigger] self.rows@[j]).first_item by {
                    assert(self.rows@[k] == entered.rows@[k]);
                    if j < idx {
                        assert(self.rows@[j] == entered.rows@[j]);
                    } else {
                        assert(entered.rows@[k].last_item <= row_dst);
                    }
                }
                assert forall|p: int|
                    new_read <= p < old(self).scratch.items@.len() implies #[trigger] self.scratch.items@[p]
                    == old(self).scratch.items@[p] by {}
                if next < n {
                    assert(old(self).rows@[idx as int].last_item <= old(self).rows@[idx + 1].first_item);
                }
                read = new_read;
                assert(self.sweeping(old(self), next, dst as nat, read));
            }
            idx += 1;
        }
        proof {
            let g = self.grammar_view();
            assert forall|k: int| 0 <= k < n implies {
                &&& #[trigger] self.row_items(k) == old(self).kept(old(self).row_items(k))
                &&& self.row_allowed(k) == old(self).row_allowed(k)
            } by {
                assert(self.rows@[k].allowed_lexemes == old(self).rows@[k].allowed_lexemes);
            }
            let rv = rows_view(self.rows@, self.scratch.items@, n as nat);
            assert forall|k: int, j: int| 0 <= k < rv.len() && 0 <= j < rv[k].len() implies item_valid(
                g,
                k as nat,
                #[trigger] rv[k][j],
            ) by {
                let old_row = old(self).row_items(k);
                assert(rv[k] == self.row_items(k));
                old(self).lemma_kept(old_row);
                assert(old_row.contains(old(self).kept(old_row)[j]));
                let p = choose|p: int| 0 <= p < old_row.len() && old_row[p] == rv[k][j];
                old(self).lemma_live_item_valid(k, p);
            }
            assert forall|k: int| 0 <= k < n implies (#[trigger] self.row_items(k)).no_duplicates() by {
                old(self).lemma_kept(old(self).row_items(k));
            }
            assert forall|k: int, j: int| 0 <= k <= j < n implies (#[trigger] self.rows@[k]).last_item <= (
            #[trigger] self.rows@[j]).last_item by {
                if k < j {
                    assert(self.rows@[k].last_item <= self.rows@[j].first_item);
                }
            }
            assert(self.rows_wf_n(n as nat));
            assert(self.stack_wf());
            assert(self.infos_wf()) by {
                assert forall|k: int| 0 <= k < self.row_infos@.len() implies (
                #[trigger] self.rows@[k]).last_item <= self.scratch.item_props@.len() by {
                    assert(old(self).rows@[k].last_item <= old(self).scratch.item_props@.len());
                }
            }
        }
    }
}

} // verus!
