//! Laws of the parser's steps.

use vstd::prelude::*;
use crate::earley::grammar::CSymIdx;
use crate::earley::lexer::LexerResult;
use crate::earley::lexer::PreLexeme;
use crate::earley::lexerspec::within;
use crate::earley::parser::LexerState;
use crate::earley::parser::Parser;
use crate::earley::parser::ParserStats;
use crate::earley::parser::step::hidden_replays;
use crate::earley::parser::step::forced_by_all;
use crate::earley::parser::step::transition_byte;
use crate::earley::parser::step::text_upto;
use crate::earley::parser::step::opt_byte;
use crate::earley::parser::step::row_bytes;
use crate::earley::parser::step::replay;
use crate::earley::parser::advance::bytes_from;
use crate::earley::parser::advance::lemma_row_bytes_from;
use crate::earley::parser::RowInfo;
use crate::earley::lexer::StateID;

verus! {

impl Parser {
    /// What a scan is of one parser, it is of any parser that looks the same.
    pub proof fn lemma_scanned_same_views(q: Parser, a: Parser, b: Parser, pre: PreLexeme)
        requires
            a.same_views(&b),
            q.scanned(&a, pre),
        ensures
            q.scanned(&b, pre),
    {
        assert(a.live_rows() =~= b.live_rows());
        let n = a.num_rows_spec();
        assert(a.row_items(n - 1) == b.row_items(n - 1));
        assert forall|i: int| 0 <= i < n implies #[trigger] q.row_items(i) == b.row_items(i)
            && q.row_allowed(i) == b.row_allowed(i) by {
            assert(a.row_items(i) == b.row_items(i));
        }
    }

    /// Whether a lexeme can be scanned depends on what the parser looks like
    /// only.
    pub proof fn lemma_scans_same_views(a: Parser, b: Parser, pre: PreLexeme)
        requires
            a.same_views(&b),
        ensures
            a.scans(pre) == b.scans(pre),
            a.hidden_bytes_of(pre) == b.hidden_bytes_of(pre),
            a.lexeme_bytes(pre) == b.lexeme_bytes(pre),
    {
        let n = a.num_rows_spec();
        assert(a.row_items(n - 1) == b.row_items(n - 1));
    }

    /// A step from one parser is a step from any parser that looks the same:
    /// what a step does depends on the views of the parser only, not on its
    /// statistics nor on what speculation left behind in unused rows.
    pub proof fn lemma_advanced_same_views(q: Parser, a: Parser, b: Parser, pre: PreLexeme, r: bool)
        requires
            a.same_views(&b),
            q.advanced(&a, pre, r),
        ensures
            q.advanced(&b, pre, r),
    {
        Self::lemma_scans_same_views(a, b, pre);
        assert(a.live_rows() =~= b.live_rows());
        let n = a.num_rows_spec();
        let lexer = a.lexer_view();
        let s = q.added_state(&a, pre);
        let tb = transition_byte(pre);
        if !a.scans(pre) {
            assert forall|i: int| 0 <= i < n implies #[trigger] q.row_items(i) == b.row_items(i)
                && q.row_allowed(i) == b.row_allowed(i) by {
                assert(a.row_items(i) == b.row_items(i));
            }
        } else if pre.hidden_len > 0 {
            Self::lemma_scanned_same_views(q, a, b, pre);
        } else if pre.byte_next_row && s == crate::earley::lexer::StateID::dead_spec() {
            Self::lemma_scanned_same_views(q, a, b, pre);
        } else if tb is Some && lexer.check_for_single_byte_lexeme_spec(s, tb->0) is Some {
            let second = lexer.check_for_single_byte_lexeme_spec(s, tb->0)->0;
            let mid = q.middle(&a, pre, r);
                    Self::lemma_middle(q, a, pre, r);
            Self::lemma_scanned_same_views(mid, a, b, pre);
            assert(q.second_scanned(&mid, &b, second, r));
        } else {
            Self::lemma_scanned_same_views(q, a, b, pre);
        }
    }

    /// How a step counts depends on what the parser looks like only.
    pub proof fn lemma_counted_same_views(
        q: Parser,
        a: Parser,
        b: Parser,
        before: ParserStats,
        res: LexerResult,
        r: bool,
    )
        requires
            a.same_views(&b),
            q.push_counted(&a, before, res, r),
        ensures
            q.push_counted(&b, before, res, r),
    {
        match res {
            LexerResult::Lexeme(pre) => {
                Self::lemma_scans_same_views(a, b, pre);
            },
            _ => {},
        }
    }

    /// A step from one parser is a step from any parser that looks the same.
    pub proof fn lemma_pushed_same_views(q: Parser, a: Parser, b: Parser, res: LexerResult, r: bool)
        requires
            a.same_views(&b),
            q.pushed(&a, res, r),
        ensures
            q.pushed(&b, res, r),
    {
        let n = a.num_rows_spec();
        match res {
            LexerResult::Lexeme(pre) => {
                Self::lemma_advanced_same_views(q, a, b, pre, r);
            },
            _ => {
                assert forall|i: int| 0 <= i < n implies #[trigger] q.row_items(i) == b.row_items(i)
                    && q.row_allowed(i) == b.row_allowed(i) by {
                    assert(a.row_items(i) == b.row_items(i));
                }
            },
        }
    }

    /// After a byte was accepted in definitive mode, every live row has its
    /// row info, provided that this held before or that a lexeme ended.
    pub proof fn lemma_pushed_committed(q: Parser, p: Parser, res: LexerResult)
        requires
            p.wf(),
            p.definitive(),
            q.pushed(&p, res, true),
            p.committed() || res is Lexeme,
        ensures
            q.committed(),
    {
        let n = p.num_rows_spec();
        match res {
            LexerResult::Lexeme(pre) => {
                let lexer = p.lexer_view();
                let s = q.added_state(&p, pre);
                let tb = transition_byte(pre);
                if pre.hidden_len > 0 {
                    let st = q.stack_after_hidden(&p, pre);
                    assert(st.last().row_idx == n as u32);
                } else if tb is Some && lexer.check_for_single_byte_lexeme_spec(s, tb->0) is Some {
                    let second = lexer.check_for_single_byte_lexeme_spec(s, tb->0)->0;
                    let mid = q.middle(&p, pre, true);
                    Self::lemma_middle(q, p, pre, true);
                    assert(mid.num_rows_spec() == n + 1);
                } else {
                }
            },
            _ => {},
        }
    }

    /// The items of the live rows are valid.
    pub(crate) proof fn lemma_live_item_valid(&self, row: int, k: int)
        requires
            self.wf(),
            0 <= row < self.num_rows_spec(),
            0 <= k < self.row_items(row).len(),
        ensures
            self.grammar_view().valid_rule(self.row_items(row)[k].rule_spec()),
            self.row_items(row)[k].start_spec() <= row,
            self.rows@[row].first_item + self.row_items(row).len() == self.rows@[row].last_item,
            self.rows@[row].last_item <= self.scratch.items@.len(),
            self.row_items(row)[k] == self.scratch.items@[self.rows@[row].first_item + k],
    {
        let rv = crate::earley::closure::rows_view(self.rows@, self.scratch.items@, self.num_rows_spec());
        assert(rv[row] == self.row_items(row));
        assert(crate::earley::closure::item_valid(self.grammar_view(), row as nat, rv[row][k]));
    }

    /// During speculation a step leaves alone what was committed: the frames
    /// of the lexer stack from before the speculation, the rows that were
    /// live then, the row infos and the captures. This holds unless the step
    /// ended a lexeme whose hidden bytes were fed again in place of frames
    /// from before the speculation.
    pub proof fn lemma_push_speculates(q: Parser, p: Parser, began: Parser, res: LexerResult, r: bool)
        requires
            p.wf(),
            p.speculates_from(&began),
            q.pushed(&p, res, r),
            q.keeps_base(&p, res),
        ensures
            q.speculates_from(&began),
    {
        let n = p.num_rows_spec();
        let n0 = began.num_rows_spec();
        let base = p.trie_base() as int;
        p.lemma_base_row(&began);
        assert(p.stack().take(base).last() == p.stack()[base - 1]);
        match res {
            LexerResult::State(next, byte) => {
                assert(q.stack().take(base) =~= p.stack().take(base));
                assert(n0 <= n);
                assert(q.rows_kept(&p, n));
                assert forall|i: int| 0 <= i < n0 implies #[trigger] q.row_items(i) == began.row_items(i)
                    && q.row_allowed(i) == began.row_allowed(i) by {
                    assert(p.row_items(i) == began.row_items(i));
                    assert(p.row_allowed(i) == began.row_allowed(i));
                    assert(q.row_items(i) == p.row_items(i));
                    assert(q.row_allowed(i) == p.row_allowed(i));
                }
            },
            LexerResult::Error => {
                assert(n0 <= n);
                assert(q.rows_kept(&p, n));
                assert forall|i: int| 0 <= i < n0 implies #[trigger] q.row_items(i) == began.row_items(i)
                    && q.row_allowed(i) == began.row_allowed(i) by {
                    assert(p.row_items(i) == began.row_items(i));
                    assert(p.row_allowed(i) == began.row_allowed(i));
                    assert(q.row_items(i) == p.row_items(i));
                    assert(q.row_allowed(i) == p.row_allowed(i));
                }
            },
            LexerResult::Lexeme(pre) => {
                Self::lemma_advance_speculates(q, p, began, pre, r);
            },
        }
    }

    /// The rows that were live when a speculation began are live during it.
    pub(crate) proof fn lemma_base_row(&self, began: &Parser)
        requires
            self.wf(),
            self.speculates_from(began),
        ensures
            began.num_rows_spec() <= self.num_rows_spec(),
            1 <= self.trie_base(),
    {
        let base = self.trie_base() as int;
        assert(self.stack().take(base).last() == self.stack()[base - 1]);
        assert(self.lexer_stack@[base - 1].row_idx <= self.lexer_stack@[self.lexer_stack@.len() - 1].row_idx);
    }

    /// During speculation the scan of a lexeme leaves alone what was
    /// committed, unless its hidden bytes were fed again in place of frames
    /// from before the speculation.
    pub proof fn lemma_advance_speculates(q: Parser, p: Parser, began: Parser, pre: PreLexeme, r: bool)
        requires
            p.wf(),
            p.speculates_from(&began),
            q.advanced(&p, pre, r),
            q.shallow(&p, pre),
        ensures
            q.speculates_from(&began),
    {
        let n = p.num_rows_spec();
        let n0 = began.num_rows_spec();
        let base = p.trie_base() as int;
        p.lemma_base_row(&began);
        Self::lemma_advance_effect(q, p, pre, r);
        assert(q.stack().take(base) =~= p.stack().take(base));
        assert forall|i: int| 0 <= i < n0 implies #[trigger] q.row_items(i) == began.row_items(i)
            && q.row_allowed(i) == began.row_allowed(i) by {
            assert(p.row_items(i) == began.row_items(i));
        }
        assert(q.rows_kept(&began, n0));
        assert(q.stack().take(q.trie_base() as int) == began.stack());
        assert(q.infos() == began.infos());
        assert(q.captures_view() == began.captures_view());
    }

    /// What every scan of a lexeme leaves alone, accepted or not: the live
    /// rows, and the lexer stack below the frames that hidden bytes replace.
    /// During speculation the row infos and the captures stay as well, and
    /// so do the frames from before the speculation.
    pub proof fn lemma_advance_effect(q: Parser, p: Parser, pre: PreLexeme, r: bool)
        requires
            p.wf(),
            q.advanced(&p, pre, r),
        ensures
            q.frame_kept(&p),
            q.rows_kept(&p, p.num_rows_spec()),
            !p.definitive() ==> q.infos() == p.infos() && q.captures_view() == p.captures_view(),
            !p.definitive() && q.shallow(&p, pre) ==> q.stack().len() >= p.trie_base() && forall|i: int|
                0 <= i < p.trie_base() ==> #[trigger] q.stack()[i] == p.stack()[i],
            r ==> q.stack().len() == p.stack().len() + 1,
            !r ==> q.stack() == p.stack(),
    {
        let n = p.num_rows_spec();
        let lexer = p.lexer_view();
        let s = q.added_state(&p, pre);
        let tb = transition_byte(pre);
        p.lemma_pending_len();
        if !p.scans(pre) {
        } else if pre.hidden_len > 0 {
            let hidden = p.hidden_bytes_of(pre);
            assert(hidden.len() == pre.hidden_len);
            assert(q.stack() == q.stack_after_hidden(&p, pre));
        } else if pre.byte_next_row && s == crate::earley::lexer::StateID::dead_spec() {
        } else if tb is Some && lexer.check_for_single_byte_lexeme_spec(s, tb->0) is Some {
            let second = lexer.check_for_single_byte_lexeme_spec(s, tb->0)->0;
            let mid = q.middle(&p, pre, r);
                    Self::lemma_middle(q, p, pre, r);
            assert(mid.num_rows_spec() == n + 1);
            assert forall|i: int| 0 <= i < n implies #[trigger] q.row_items(i) == p.row_items(i)
                && q.row_allowed(i) == p.row_allowed(i) by {
                assert(mid.row_items(i) == p.row_items(i));
                assert(q.row_items(i) == mid.row_items(i));
            }
        } else {
        }
    }

    /// What every step leaves alone, accepted or not: the live rows, and
    /// during speculation the row infos, the captures and the frames from
    /// before the speculation. A byte that is accepted makes the lexer stack
    /// one frame deeper; one that is refused leaves it as it was.
    pub proof fn lemma_push_effect(q: Parser, p: Parser, res: LexerResult, r: bool)
        requires
            p.wf(),
            q.pushed(&p, res, r),
        ensures
            q.frame_kept(&p),
            q.rows_kept(&p, p.num_rows_spec()),
            !p.definitive() ==> q.infos() == p.infos() && q.captures_view() == p.captures_view(),
            !p.definitive() && q.keeps_base(&p, res) ==> q.stack().len() >= p.trie_base() && forall|i: int|
                0 <= i < p.trie_base() ==> #[trigger] q.stack()[i] == p.stack()[i],
            r ==> q.stack().len() == p.stack().len() + 1,
            !r ==> q.stack() == p.stack(),
    {
        match res {
            LexerResult::Lexeme(pre) => {
                Self::lemma_advance_effect(q, p, pre, r);
            },
            _ => {},
        }
    }

    /// The same for ending the pending lexeme, except that with no bytes
    /// pending the stack stays as it is.
    pub proof fn lemma_flush_effect(q: Parser, p: Parser, r: bool)
        requires
            p.wf(),
            q.flushed(&p, r),
        ensures
            q.frame_kept(&p),
            q.rows_kept(&p, p.num_rows_spec()),
            !p.definitive() ==> q.infos() == p.infos() && q.captures_view() == p.captures_view(),
            !p.definitive() && p.trie_base() <= p.stack().len() ==> q.stack().len() >= p.trie_base(),
            !r ==> q.stack() == p.stack(),
    {
        if p.pending_bytes().len() > 0 {
            Self::lemma_push_effect(q, p, p.lexer_view().try_lexeme_end_spec(p.top().lexer_state), r);
        }
    }

    /// During speculation the scan of a nested grammar's output leaves alone
    /// what was committed.
    pub proof fn lemma_gen_speculates(q: Parser, p: Parser, began: Parser, symidx: CSymIdx, bytes: Seq<u8>, r: bool)
        requires
            p.wf(),
            p.speculates_from(&began),
            q.gen_scanned(&p, symidx, bytes, r),
        ensures
            q.speculates_from(&began),
    {
        let n0 = began.num_rows_spec();
        let base = p.trie_base() as int;
        p.lemma_base_row(&began);
        assert(q.stack().take(base) =~= p.stack().take(base));
        assert forall|i: int| 0 <= i < n0 implies #[trigger] q.row_items(i) == began.row_items(i)
            && q.row_allowed(i) == began.row_allowed(i) by {
            assert(p.row_items(i) == began.row_items(i));
            assert(q.row_items(i) == p.row_items(i));
        }
        assert(q.rows_kept(&began, n0));
        assert(q.stack().take(q.trie_base() as int) == began.stack());
        assert(q.infos() == began.infos());
        assert(q.captures_view() == began.captures_view());
    }

    /// Taking frames off the top during a speculation, but none from before
    /// it, leaves alone what was committed.
    pub proof fn lemma_pop_speculates(q: Parser, p: Parser, began: Parser, num: nat)
        requires
            p.wf(),
            p.speculates_from(&began),
            num <= p.stack().len() - p.trie_base(),
            q.frame_kept(&p),
            q.stack() == p.stack().take(p.stack().len() - num),
            q.rows_kept(&p, p.rows_len()),
            q.infos() == p.infos(),
            q.captures_view() == p.captures_view(),
        ensures
            q.speculates_from(&began),
    {
        p.lemma_base_row(&began);
        p.lemma_rows_len();
        let base = p.trie_base() as int;
        assert(q.stack().take(base) =~= p.stack().take(base));
        assert forall|i: int| 0 <= i < began.num_rows_spec() implies #[trigger] q.row_items(i)
            == began.row_items(i) && q.row_allowed(i) == began.row_allowed(i) by {
            assert(p.row_items(i) == began.row_items(i));
        }
    }

    /// The live rows are among the row slots.
    pub(crate) proof fn lemma_rows_len(&self)
        requires
            self.wf(),
        ensures
            self.num_rows_spec() <= self.rows_len(),
    {
    }

    /// During speculation ending the pending lexeme leaves alone what was
    /// committed.
    pub proof fn lemma_flush_speculates(q: Parser, p: Parser, began: Parser, r: bool)
        requires
            p.wf(),
            p.speculates_from(&began),
            q.flushed(&p, r),
        ensures
            q.speculates_from(&began),
    {
        if p.pending_bytes().len() == 0 {
            p.lemma_base_row(&began);
            assert forall|i: int| 0 <= i < began.num_rows_spec() implies #[trigger] q.row_items(i)
                == began.row_items(i) && q.row_allowed(i) == began.row_allowed(i) by {
                assert(p.row_items(i) == began.row_items(i));
            }
        } else {
            Self::lemma_push_speculates(
                q,
                p,
                began,
                p.lexer_view().try_lexeme_end_spec(p.top().lexer_state),
                r,
            );
        }
    }

    /// The bytes of the rows before row `k` do not depend on what is pending,
    /// nor on the row infos from `k` on, where `k` is not the last row.
    pub proof fn lemma_text_before(
        a: Seq<RowInfo>,
        pa: Seq<u8>,
        na: nat,
        b: Seq<RowInfo>,
        pb: Seq<u8>,
        nb: nat,
        k: int,
    )
        requires
            0 <= k <= a.len(),
            k <= b.len(),
            k <= na - 1,
            k <= nb - 1,
            forall|i: int| 0 <= i < k ==> (#[trigger] a[i]).lexeme == b[i].lexeme,
        ensures
            text_upto(a, pa, na, k) == text_upto(b, pb, nb, k),
        decreases k,
    {
        if k > 0 {
            Self::lemma_text_before(a, pa, na, b, pb, nb, k - 1);
            assert(a[k - 1].lexeme == b[k - 1].lexeme);
        }
    }

    /// The text of a committed parser ends with the bytes that are pending.
    pub proof fn lemma_text_pending(&self)
        requires
            self.wf(),
            self.committed(),
        ensures
            self.text() == text_upto(
                self.infos(),
                self.pending_bytes(),
                self.num_rows_spec(),
                self.num_rows_spec() - 1,
            ) + self.pending_bytes(),
    {
        let n = self.num_rows_spec();
        let last = self.infos()[n - 1].lexeme;
        assert(last.is_bogus_spec());
        assert(last.wf());
        assert(last.visible_bytes_spec() =~= Seq::<u8>::empty());
    }

    /// The bytes of frames that were put on a stack are the bytes of the
    /// stack from there on.
    pub proof fn lemma_bytes_put(below: Seq<LexerState>, put: Seq<LexerState>, bytes: Seq<u8>)
        requires
            put.len() == bytes.len(),
            forall|i: int| 0 <= i < put.len() ==> (#[trigger] put[i]).byte == Some(bytes[i]),
        ensures
            bytes_from(below + put, below.len() as int) == bytes,
        decreases put.len(),
    {
        let all = below + put;
        if put.len() == 0 {
            assert(bytes =~= Seq::<u8>::empty());
        } else {
            let fewer = put.drop_last();
            Self::lemma_bytes_put(below, fewer, bytes.drop_last());
            assert(all.drop_last() =~= below + fewer);
            assert(all.last() == put.last());
            assert(bytes =~= bytes.drop_last() + opt_byte(put.last().byte));
        }
    }

    /// The bytes that a lexeme gives back to what follows it without their
    /// being fed again: its hidden bytes, where not every lexeme class of
    /// the new row begins with them. They are no part of the text until they
    /// are fed once more.
    pub open spec fn given_back(&self, old: &Parser, res: LexerResult) -> Seq<u8> {
        match res {
            LexerResult::Lexeme(pre) => if old.scans(pre) && pre.hidden_len > 0 && !self.replays(old, pre) {
                old.hidden_bytes_of(pre)
            } else {
                seq![]
            },
            _ => seq![],
        }
    }

    /// A byte that is fed for good and accepted is added to the text: then
    /// `get_bytes` gives the bytes that it gave before and the new byte
    /// behind them, but for hidden bytes that a lexeme gives back. The end
    /// of input adds nothing.
    pub proof fn lemma_fed_text(q: Parser, p: Parser, byte: Option<u8>)
        requires
            p.wf(),
            p.committed(),
            q.wf(),
            q.pushed(&p, p.lexed(byte), true),
        ensures
            q.committed(),
            q.text() + q.given_back(&p, p.lexed(byte)) == p.text() + opt_byte(byte),
    {
        let res = p.lexed(byte);
        match res {
            LexerResult::Lexeme(pre) => {
                if pre.hidden_len > 0 {
                    Self::lemma_fed_text_hidden(q, p, byte, pre);
                } else {
                    Self::lemma_fed_text_plain(q, p, byte);
                    assert(q.text() + q.given_back(&p, res) =~= q.text());
                }
            },
            _ => {
                Self::lemma_fed_text_plain(q, p, byte);
                assert(q.text() + q.given_back(&p, res) =~= q.text());
            },
        }
    }

    /// The text after a lexeme with hidden bytes was scanned for good.
    pub proof fn lemma_fed_text_hidden(q: Parser, p: Parser, byte: Option<u8>, pre: PreLexeme)
        requires
            p.wf(),
            p.committed(),
            q.wf(),
            p.lexed(byte) == LexerResult::Lexeme(pre),
            pre.hidden_len > 0,
            q.advanced(&p, pre, true),
        ensures
            q.committed(),
            q.text() + q.given_back(&p, p.lexed(byte)) == p.text() + opt_byte(byte),
    {
        let res = p.lexed(byte);
        let n = p.num_rows_spec();
        match byte {
            Some(b) => {
                p.lexer_view().lemma_advance_shape(p.top().lexer_state, b);
            },
            None => {},
        }
        Self::lemma_pushed_committed(q, p, res);
        p.lemma_text_pending();
        q.lemma_text_pending();
        p.lemma_pending_len();
        assert(p.scans(pre));
        assert(q.scanned(&p, pre));
        assert(pre.byte == byte);
        assert(!pre.byte_next_row);
        let bytes = p.lexeme_bytes(pre);
        let hidden = p.hidden_bytes_of(pre);
        let visible = bytes.take(bytes.len() - pre.hidden_len);
        assert(visible + hidden =~= bytes);
        assert(bytes =~= p.pending_bytes() + opt_byte(byte));
        assert(q.stack() == q.stack_after_hidden(&p, pre));
        assert(q.num_rows_spec() == n + 1);
        assert(q.infos()[n - 1].lexeme.visible_bytes_spec() =~= visible);
        Self::lemma_text_before(q.infos(), q.pending_bytes(), n + 1, p.infos(), p.pending_bytes(), n, n - 1);
        assert(text_upto(q.infos(), q.pending_bytes(), n + 1, n as int) == text_upto(
            q.infos(),
            q.pending_bytes(),
            n + 1,
            n - 1,
        ) + visible);
        assert(p.stack().last().row_idx == n - 1);
        if q.replays(&p, pre) {
            let states = replay(
                p.lexer_view(),
                p.lexer_view().start_state_spec(q.row_allowed(n as int), None),
                hidden,
            )->0;
            let keep = p.stack().len() - (hidden.len() - 1);
            let below = p.stack().take(keep);
            let put = Seq::new(
                hidden.len(),
                |i: int| LexerState { row_idx: n as u32, lexer_state: states[i], byte: Some(hidden[i]) },
            );
            assert(q.stack() == below + put);
            Self::lemma_bytes_put(below, put, hidden);
            assert(below.len() == keep);
            assert forall|i: int| keep <= i < q.stack().len() implies (#[trigger] q.stack()[i]).row_idx
                == n as u32 by {
                assert(q.stack()[i] == put[i - keep]);
            }
            assert(q.stack()[keep - 1] == p.stack()[keep - 1]);
            assert(p.stack()[keep - 1].row_idx <= p.stack().last().row_idx);
            lemma_row_bytes_from(q.stack(), n as u32, keep);
            assert(q.pending_bytes() == hidden);
            assert(q.text() + q.given_back(&p, res) =~= p.text() + opt_byte(byte));
        } else {
            assert(q.stack().drop_last() =~= p.stack());
            assert(q.top().row_idx == n as u32);
            assert(row_bytes(p.stack(), n as u32) =~= Seq::<u8>::empty());
            assert(row_bytes(q.stack(), n as u32) =~= row_bytes(q.stack().drop_last(), n as u32) + opt_byte(
                q.stack().last().byte,
            ));
            assert(q.pending_bytes() =~= Seq::<u8>::empty());
            assert(q.given_back(&p, res) == hidden);
            assert(q.text() + q.given_back(&p, res) =~= p.text() + opt_byte(byte));
        }
    }

    /// The text after a byte that ends no lexeme with hidden bytes was fed
    /// for good.
    pub proof fn lemma_fed_text_plain(q: Parser, p: Parser, byte: Option<u8>)
        requires
            p.wf(),
            p.committed(),
            q.wf(),
            q.pushed(&p, p.lexed(byte), true),
            p.lexed(byte) matches LexerResult::Lexeme(pre) ==> pre.hidden_len == 0,
        ensures
            q.committed(),
            q.text() == p.text() + opt_byte(byte),
    {
        let res = p.lexed(byte);
        let n = p.num_rows_spec();
        let row = p.top().row_idx;
        match byte {
            Some(b) => {
                p.lexer_view().lemma_advance_shape(p.top().lexer_state, b);
            },
            None => {},
        }
        Self::lemma_pushed_committed(q, p, res);
        p.lemma_text_pending();
        q.lemma_text_pending();
        let before = text_upto(p.infos(), p.pending_bytes(), n, n - 1);
        match res {
            LexerResult::State(next, byte0) => {
                assert(q.stack().drop_last() =~= p.stack());
                assert(byte == Some(byte0));
                assert(q.pending_bytes() =~= p.pending_bytes() + opt_byte(byte));
                Self::lemma_text_before(
                    q.infos(),
                    q.pending_bytes(),
                    n,
                    p.infos(),
                    p.pending_bytes(),
                    n,
                    n - 1,
                );
                assert(q.text() =~= p.text() + opt_byte(byte));
            },
            LexerResult::Error => {},
            LexerResult::Lexeme(pre) => {
                let lexer = p.lexer_view();
                let s = q.added_state(&p, pre);
                let tb = transition_byte(pre);
                assert(pre.byte == byte);
                if tb is Some && !(pre.byte_next_row && s == StateID::dead_spec())
                    && lexer.check_for_single_byte_lexeme_spec(s, tb->0) is Some {
                    let second = lexer.check_for_single_byte_lexeme_spec(s, tb->0)->0;
                    let mid = q.middle(&p, pre, true);
                    Self::lemma_middle(q, p, pre, true);
                    assert(mid.num_rows_spec() == n + 1);
                    assert(mid.stack().drop_last() =~= p.stack());
                    assert(p.stack().last().row_idx == n - 1);
                    assert(mid.top().row_idx == n as u32);
                    assert(row_bytes(p.stack(), n as u32) =~= Seq::<u8>::empty());
                    assert(row_bytes(mid.stack(), n as u32) =~= row_bytes(mid.stack().drop_last(), n as u32)
                        + opt_byte(mid.stack().last().byte));
                    assert(mid.pending_bytes() =~= Seq::<u8>::empty());
                    assert(q.scanned(&mid, second));
                    assert(q.num_rows_spec() == n + 2);
                    assert(q.stack().drop_last() =~= p.stack());
                    assert(q.top().row_idx == (n + 1) as u32);
                    assert(row_bytes(p.stack(), (n + 1) as u32) =~= Seq::<u8>::empty());
                    assert(row_bytes(q.stack(), (n + 1) as u32) =~= row_bytes(
                        q.stack().drop_last(),
                        (n + 1) as u32,
                    ) + opt_byte(q.stack().last().byte));
                    assert(q.pending_bytes() =~= Seq::<u8>::empty());
                    let first_bytes = p.lexeme_bytes(pre);
                    assert(first_bytes =~= p.pending_bytes());
                    let second_bytes = mid.lexeme_bytes(second);
                    assert(second_bytes =~= opt_byte(byte));
                    assert(q.infos()[n - 1] == mid.infos()[n - 1]);
                    assert(q.infos()[n - 1].lexeme.visible_bytes_spec() =~= first_bytes);
                    assert(q.infos()[n as int].lexeme.visible_bytes_spec() =~= second_bytes);
                    Self::lemma_text_before(
                        q.infos(),
                        q.pending_bytes(),
                        n + 2,
                        p.infos(),
                        p.pending_bytes(),
                        n,
                        n - 1,
                    );
                    assert(text_upto(q.infos(), q.pending_bytes(), n + 2, n as int) == text_upto(
                        q.infos(),
                        q.pending_bytes(),
                        n + 2,
                        n - 1,
                    ) + first_bytes);
                    assert(text_upto(q.infos(), q.pending_bytes(), n + 2, n as int + 1) == text_upto(
                        q.infos(),
                        q.pending_bytes(),
                        n + 2,
                        n as int,
                    ) + second_bytes);
                    assert(q.text() =~= p.text() + opt_byte(byte));
                } else {
                    assert(q.scanned(&p, pre));
                    assert(q.num_rows_spec() == n + 1);
                    assert(q.stack().drop_last() =~= p.stack());
                    assert(p.stack().last().row_idx == n - 1);
                    assert(q.top().row_idx == n as u32);
                    assert(row_bytes(p.stack(), n as u32) =~= Seq::<u8>::empty());
                    assert(row_bytes(q.stack(), n as u32) =~= row_bytes(q.stack().drop_last(), n as u32)
                        + opt_byte(q.stack().last().byte));
                    assert(q.pending_bytes() =~= opt_byte(tb));
                    let bytes = p.lexeme_bytes(pre);
                    assert(q.infos()[n - 1].lexeme.visible_bytes_spec() =~= bytes);
                    Self::lemma_text_before(
                        q.infos(),
                        q.pending_bytes(),
                        n + 1,
                        p.infos(),
                        p.pending_bytes(),
                        n,
                        n - 1,
                    );
                    assert(text_upto(q.infos(), q.pending_bytes(), n + 1, n as int) == text_upto(
                        q.infos(),
                        q.pending_bytes(),
                        n + 1,
                        n - 1,
                    ) + bytes);
                    assert(q.text() =~= p.text() + opt_byte(byte));
                }
            },
        }
    }

    /// A byte that is refused leaves the text as it was, where the parser is
    /// committed afterwards.
    pub proof fn lemma_refused_text(q: Parser, p: Parser, res: LexerResult)
        requires
            p.wf(),
            p.committed(),
            q.wf(),
            q.committed(),
            q.pushed(&p, res, false),
        ensures
            q.text() == p.text(),
    {
        let n = p.num_rows_spec();
        match res {
            LexerResult::Lexeme(pre) => {
                Self::lemma_advance_effect(q, p, pre, false);
                if p.scans(pre) {
                    let lexer = p.lexer_view();
                    let s = q.added_state(&p, pre);
                    let tb = transition_byte(pre);
                    if pre.byte_next_row && s == StateID::dead_spec() {
                        assert(q.infos().len() == n + 1);
                    } else {
                        let second = lexer.check_for_single_byte_lexeme_spec(s, tb->0)->0;
                        let mid = q.middle(&p, pre, false);
                    Self::lemma_middle(q, p, pre, false);
                        assert(mid.infos().len() == n + 1);
                        assert(q.infos().len() == n + 1);
                    }
                }
            },
            _ => {},
        }
    }

    /// After a lexeme with hidden bytes was scanned, in either mode, the
    /// parser shows that the lexer refused the hidden bytes exactly if every
    /// lexeme class of the new row begins with them and they were not fed
    /// again.
    pub proof fn lemma_refuses(q: Parser, p: Parser, pre: PreLexeme)
        requires
            p.wf(),
            p.scans(pre),
            pre.hidden_len > 0,
            q.advanced(&p, pre, true),
        ensures
            q.refuses(p.hidden_bytes_of(pre)) == (!q.replays(&p, pre) && forced_by_all(
                p.grammar_view().lexer_spec_view(),
                q.row_allowed(p.num_rows_spec() as int),
                p.hidden_bytes_of(pre),
            )),
    {
        let n = p.num_rows_spec();
        let hidden = p.hidden_bytes_of(pre);
        p.lemma_pending_len();
        assert(hidden.len() == pre.hidden_len);
        assert(q.stack() == q.stack_after_hidden(&p, pre));
        assert(q.stack().last().row_idx == n as u32);
        assert(q.num_rows_spec() == n + 1);
        if q.replays(&p, pre) {
            assert(q.top().byte == Some(hidden[hidden.len() - 1]));
        }
    }

    /// A byte that was accepted and is taken back leaves the lexer stack as
    /// it was before the byte: the same depth, the same row and the same
    /// lexer state on top. This holds unless the byte ended a lexeme with
    /// two or more hidden bytes that were fed to the lexer again at once:
    /// their frames took the place of frames that are not brought back.
    pub proof fn lemma_push_pop(q: Parser, p: Parser, res: LexerResult, popped: Parser)
        requires
            p.wf(),
            q.pushed(&p, res, true),
            res matches LexerResult::Lexeme(pre) ==> pre.hidden_len <= 1 || !q.replays(&p, pre),
            popped.stack() == q.stack().take(q.stack().len() - 1),
        ensures
            popped.stack() == p.stack(),
            popped.stack().len() == p.stack().len(),
            popped.top().row_idx == p.top().row_idx,
            popped.top().lexer_state == p.top().lexer_state,
            popped.num_rows_spec() == p.num_rows_spec(),
    {
        match res {
            LexerResult::Lexeme(pre) => {
                Self::lemma_advance_effect(q, p, pre, true);
                let n = p.num_rows_spec();
                let lexer = p.lexer_view();
                let s = q.added_state(&p, pre);
                let tb = transition_byte(pre);
                p.lemma_pending_len();
                if pre.hidden_len > 0 {
                    let hidden = p.hidden_bytes_of(pre);
                    assert(hidden.len() == pre.hidden_len);
                    assert(q.stack() == q.stack_after_hidden(&p, pre));
                    if q.replays(&p, pre) {
                        assert(hidden.len() == 1);
                        assert(p.stack().take(p.stack().len() as int) =~= p.stack());
                    }
                    assert(q.stack().take(q.stack().len() - 1) =~= p.stack());
                } else if tb is Some && lexer.check_for_single_byte_lexeme_spec(s, tb->0) is Some {
                    let second = lexer.check_for_single_byte_lexeme_spec(s, tb->0)->0;
                    let mid = q.middle(&p, pre, true);
                    Self::lemma_middle(q, p, pre, true);
                    assert(q.stack().take(q.stack().len() - 1) =~= p.stack());
                } else {
                    assert(q.stack().take(q.stack().len() - 1) =~= p.stack());
                }
            },
            LexerResult::State(next, byte) => {
                assert(q.stack().take(q.stack().len() - 1) =~= p.stack());
            },
            LexerResult::Error => {},
        }
    }

    /// Every lexeme class that the lexer holds possible at the start of a
    /// live row is a class that the row allows.
    pub proof fn lemma_allowed_covers_possible(&self, row: int, first_byte: Option<u8>)
        requires
            self.wf(),
            0 <= row < self.num_rows_spec(),
        ensures
            within(
                self.lexer_view().desc(
                    self.lexer_view().start_state_spec(self.row_allowed(row), first_byte),
                ).possible@,
                self.row_allowed(row),
            ),
    {
        self.lexer_view().lemma_start_possible(self.row_allowed(row), first_byte);
    }
}

} // verus!
