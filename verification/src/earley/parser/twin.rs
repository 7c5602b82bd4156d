//! Parsers that hold the same: what is fed to both makes the same of both.

use vstd::prelude::*;
use crate::earley::closure::lemma_closed_run_one;
use crate::earley::grammar::CGrammar;
use crate::earley::item::Item;
use crate::earley::lexer::LexerResult;
use crate::earley::lexer::PreLexeme;
use crate::earley::lexer::StateID;
use crate::earley::lexerspec::LexemeIdx;
use crate::earley::parser::copy::info_view;
use crate::earley::parser::copy::lemma_text_views;
use crate::earley::parser::step::transition_byte;
use crate::earley::parser::LexerState;
use crate::earley::parser::Parser;
use crate::earley::parser::RowInfo;
use crate::earley::rowbuild::item_captures;
use crate::earley::rowbuild::row_captures;
use crate::earley::rowbuild::visible_concat;

verus! {

/// The visible bytes of rows depend on what their row infos hold.
pub proof fn lemma_visible_views(a: Seq<RowInfo>, b: Seq<RowInfo>, from: int, to: int)
    requires
        0 <= from,
        to <= a.len(),
        to <= b.len(),
        forall|i: int| 0 <= i < to ==> info_view(#[trigger] a[i]) == info_view(b[i]),
    ensures
        visible_concat(a, from, to) == visible_concat(b, from, to),
    decreases to - from,
{
    if from < to {
        lemma_visible_views(a, b, from, to - 1);
        assert(info_view(a[to - 1]) == info_view(b[to - 1]));
    }
}

/// The captures of a row depend on what the row infos hold.
pub proof fn lemma_captures_views(
    g: CGrammar,
    a: Seq<RowInfo>,
    b: Seq<RowInfo>,
    visible: Seq<u8>,
    hidden: Seq<u8>,
    curr_idx: nat,
    items: Seq<Item>,
)
    requires
        curr_idx <= a.len(),
        curr_idx <= b.len(),
        forall|i: int| 0 <= i < curr_idx ==> info_view(#[trigger] a[i]) == info_view(b[i]),
    ensures
        row_captures(g, a, visible, hidden, curr_idx, items) == row_captures(
            g,
            b,
            visible,
            hidden,
            curr_idx,
            items,
        ),
    decreases items.len(),
{
    if items.len() > 0 {
        lemma_captures_views(g, a, b, visible, hidden, curr_idx, items.drop_last());
        let it = items.last();
        lemma_visible_views(a, b, it.start_spec() as int, curr_idx as int);
        assert(item_captures(g, a, visible, hidden, curr_idx, it) == item_captures(
            g,
            b,
            visible,
            hidden,
            curr_idx,
            it,
        ));
    }
}

impl Parser {
    /// The two parsers hold the same: the same grammar, lexer and mode, the
    /// same counters of tokens and bytes, the same lexer stack, the same
    /// items in the same order in every live row, the same captures, and row
    /// infos that hold the same.
    pub open spec fn twin(&self, other: &Parser) -> bool {
        &&& self.grammar_view() == other.grammar_view()
        &&& self.lexer_view() == other.lexer_view()
        &&& self.definitive() == other.definitive()
        &&& self.token_idx_view() == other.token_idx_view()
        &&& self.byte_idx_view() == other.byte_idx_view()
        &&& self.stack() == other.stack()
        &&& self.rows_kept(other, self.num_rows_spec())
        &&& self.captures_view() == other.captures_view()
        &&& self.infos().len() == other.infos().len()
        &&& forall|i: int|
            0 <= i < self.infos().len() ==> info_view(#[trigger] self.infos()[i]) == info_view(
                other.infos()[i],
            )
    }

    /// Twins have the same live rows and the same seeds for every lexeme.
    pub proof fn lemma_twin_rows(&self, other: &Parser, idx: LexemeIdx)
        requires
            self.twin(other),
        ensures
            self.live_rows() == other.live_rows(),
            self.seeds_for(idx) == other.seeds_for(idx),
            self.num_rows_spec() == other.num_rows_spec(),
    {
        assert(self.live_rows() =~= other.live_rows());
    }

    /// The rows that twins scan a lexeme into are the same row, item for
    /// item, and the twins are twins but for their lexer stacks afterwards.
    pub proof fn lemma_scanned_twin(q1: Parser, pa: Parser, q2: Parser, pb: Parser, pre: PreLexeme)
        requires
            pa.wf(),
            pb.wf(),
            q1.wf(),
            q2.wf(),
            pa.twin(&pb),
            pa.scans(pre),
            q1.frame_kept(&pa),
            q2.frame_kept(&pb),
            q1.scanned(&pa, pre),
            q2.scanned(&pb, pre),
        ensures
            q1.rows_kept(&q2, pa.num_rows_spec() + 1),
            q1.captures_view() == q2.captures_view(),
            q1.infos().len() == q2.infos().len(),
            forall|i: int|
                0 <= i < q1.infos().len() ==> info_view(#[trigger] q1.infos()[i]) == info_view(q2.infos()[i]),
    {
        let n = pa.num_rows_spec();
        let g = pa.grammar_view();
        pa.lemma_twin_rows(&pb, pre.idx);
        let seeds = pa.seeds_for(pre.idx);
        let row1 = q1.row_items(n as int);
        let row2 = q2.row_items(n as int);
        if pre.idx != LexemeIdx::skip_spec() {
            lemma_closed_run_one(g, pa.live_rows(), seeds, 0, row1, row2);
            assert(q1.row_allowed(n as int) =~= q2.row_allowed(n as int));
        }
        assert(row1 == row2);
        assert forall|i: int| 0 <= i < n + 1 implies #[trigger] q1.row_items(i) == q2.row_items(i)
            && q1.row_allowed(i) == q2.row_allowed(i) by {
            if i < n {
                assert(q1.row_items(i) == pa.row_items(i));
                assert(q2.row_items(i) == pb.row_items(i));
                assert(pa.row_items(i) == pb.row_items(i));
                assert(q1.row_allowed(i) == pa.row_allowed(i));
                assert(q2.row_allowed(i) == pb.row_allowed(i));
            }
        }
        if pa.definitive() {
            let bytes = pa.lexeme_bytes(pre);
            assert(pb.lexeme_bytes(pre) == bytes);
            if pre.idx != LexemeIdx::skip_spec() {
                lemma_captures_views(
                    g,
                    pa.infos(),
                    pb.infos(),
                    bytes.take(bytes.len() - pre.hidden_len),
                    bytes.skip(bytes.len() - pre.hidden_len),
                    n,
                    row1,
                );
            }
            assert forall|i: int| 0 <= i < q1.infos().len() implies info_view(#[trigger] q1.infos()[i])
                == info_view(q2.infos()[i]) by {
                if i < n - 1 {
                    assert(q1.infos()[i] == pa.infos()[i]);
                    assert(q2.infos()[i] == pb.infos()[i]);
                    assert(info_view(pa.infos()[i]) == info_view(pb.infos()[i]));
                } else if i == n - 1 {
                    assert(info_view(pa.infos()[n - 1]) == info_view(pb.infos()[n - 1]));
                } else {
                    q1.lemma_info_lexeme(i);
                    q2.lemma_info_lexeme(i);
                    assert(q1.infos()[i].lexeme.bytes@ =~= q2.infos()[i].lexeme.bytes@);
                    assert(q1.infos()[i].lexeme.idx == q2.infos()[i].lexeme.idx);
                }
            }
        }
    }

    /// Twins treat a lexeme alike, and are twins afterwards.
    pub proof fn lemma_advanced_twin(
        q1: Parser,
        pa: Parser,
        r1: bool,
        q2: Parser,
        pb: Parser,
        r2: bool,
        pre: PreLexeme,
    )
        requires
            pa.wf(),
            pb.wf(),
            q1.wf(),
            q2.wf(),
            pa.twin(&pb),
            q1.advanced(&pa, pre, r1),
            q2.advanced(&pb, pre, r2),
        ensures
            r1 == r2,
            q1.twin(&q2),
    {
        let n = pa.num_rows_spec();
        let lexer = pa.lexer_view();
        let tb = transition_byte(pre);
        pa.lemma_twin_rows(&pb, pre.idx);
        assert(pa.lexeme_bytes(pre) == pb.lexeme_bytes(pre));
        assert(pa.scans(pre) == pb.scans(pre));
        if !pa.scans(pre) {
            assert forall|i: int| 0 <= i < q1.num_rows_spec() implies #[trigger] q1.row_items(i)
                == q2.row_items(i) && q1.row_allowed(i) == q2.row_allowed(i) by {
                assert(q1.row_items(i) == pa.row_items(i));
                assert(q2.row_items(i) == pb.row_items(i));
                assert(pa.row_items(i) == pb.row_items(i));
                assert(q1.row_allowed(i) == pa.row_allowed(i));
                assert(q2.row_allowed(i) == pb.row_allowed(i));
                assert(pa.row_allowed(i) == pb.row_allowed(i));
            }
            assert(q1.twin(&q2));
        } else if pre.hidden_len > 0 {
            Self::lemma_scanned_twin(q1, pa, q2, pb, pre);
            pa.lemma_pending_len();
            assert(q1.stack() == q1.stack_after_hidden(&pa, pre));
            assert(q2.stack() == q2.stack_after_hidden(&pb, pre));
            assert(q1.row_allowed(n as int) == q2.row_allowed(n as int));
            assert(q1.stack() == q2.stack());
            assert(q1.stack().last().row_idx == n as u32);
            assert(q1.num_rows_spec() == n + 1);
            assert(q1.twin(&q2));
        } else {
            let s1 = q1.added_state(&pa, pre);
            let s2 = q2.added_state(&pb, pre);
            let d1 = pre.byte_next_row && s1 == StateID::dead_spec();
            let d2 = pre.byte_next_row && s2 == StateID::dead_spec();
            let c1 = tb is Some && lexer.check_for_single_byte_lexeme_spec(s1, tb->0) is Some;
            let c2 = tb is Some && lexer.check_for_single_byte_lexeme_spec(s2, tb->0) is Some;
            let second1 = lexer.check_for_single_byte_lexeme_spec(s1, tb->0)->0;
            let second2 = lexer.check_for_single_byte_lexeme_spec(s2, tb->0)->0;
            let w1 = if !d1 && c1 {
                q1.middle(&pa, pre, r1)
            } else {
                q1
            };
            let w2 = if !d2 && c2 {
                q2.middle(&pb, pre, r2)
            } else {
                q2
            };
            if !d1 && c1 {
                Self::lemma_middle(q1, pa, pre, r1);
            }
            if !d2 && c2 {
                Self::lemma_middle(q2, pb, pre, r2);
            }
            assert(w1.scanned(&pa, pre));
            assert(w2.scanned(&pb, pre));
            if !d1 && c1 {
                Self::lemma_mid_allowed(q1, w1, pa, second1, r1);
            }
            if !d2 && c2 {
                Self::lemma_mid_allowed(q2, w2, pb, second2, r2);
            }
            Self::lemma_scanned_twin(w1, pa, w2, pb, pre);
            assert(w1.row_allowed(n as int) == w2.row_allowed(n as int));
            assert(q1.row_allowed(n as int) == q2.row_allowed(n as int));
            assert(s1 == s2);
            if d1 {
                assert(q1.num_rows_spec() == n);
                assert(q1.stack() == q2.stack());
                assert forall|i: int| 0 <= i < n implies #[trigger] q1.row_items(i) == q2.row_items(i)
                    && q1.row_allowed(i) == q2.row_allowed(i) by {
                    assert(i < n + 1);
                }
                assert(q1.twin(&q2));
            } else if c1 {
                assert(w1.num_rows_spec() == n + 1);
                assert(w2.num_rows_spec() == n + 1);
                assert(w1.twin(&w2));
                w1.lemma_twin_rows(&w2, second1.idx);
                assert(w1.lexeme_bytes(second1) == w2.lexeme_bytes(second1));
                assert(w1.scans(second1) == w2.scans(second1));
                if w1.scans(second1) {
                    Self::lemma_scanned_twin(q1, w1, q2, w2, second1);
                    assert(q1.stack().last().row_idx == (n + 1) as u32);
                    assert(q1.num_rows_spec() == n + 2);
                    assert(q1.twin(&q2));
                } else {
                    assert(q1.num_rows_spec() == n);
                    assert forall|i: int| 0 <= i < n implies #[trigger] q1.row_items(i) == q2.row_items(i)
                        && q1.row_allowed(i) == q2.row_allowed(i) by {
                        assert(q1.row_items(i) == w1.row_items(i));
                        assert(q2.row_items(i) == w2.row_items(i));
                        assert(w1.row_items(i) == w2.row_items(i));
                        assert(q1.row_allowed(i) == w1.row_allowed(i));
                        assert(q2.row_allowed(i) == w2.row_allowed(i));
                        assert(w1.row_allowed(i) == w2.row_allowed(i));
                    }
                    assert(q1.rows_kept(&q2, n));
                    assert(q1.infos() == w1.infos());
                    assert(q2.infos() == w2.infos());
                    assert(q1.captures_view() == q2.captures_view());
                    assert(q1.stack() == q2.stack());
                    assert(q1.twin(&q2));
                }
            } else {
                assert(q1.stack().last().row_idx == n as u32);
                assert(q1.num_rows_spec() == n + 1);
                assert(q1.twin(&q2));
            }
        }
    }

    /// Twins treat what the lexer made of a byte alike: both accept it or
    /// both refuse it, and they are twins afterwards, with the same lexer
    /// stack, the same rows, item for item, the same captures and the same
    /// text.
    pub proof fn lemma_pushed_twin(
        q1: Parser,
        pa: Parser,
        r1: bool,
        q2: Parser,
        pb: Parser,
        r2: bool,
        res: LexerResult,
    )
        requires
            pa.wf(),
            pb.wf(),
            q1.wf(),
            q2.wf(),
            pa.twin(&pb),
            q1.pushed(&pa, res, r1),
            q2.pushed(&pb, res, r2),
        ensures
            r1 == r2,
            q1.twin(&q2),
    {
        let n = pa.num_rows_spec();
        pa.lemma_twin_rows(&pb, LexemeIdx::skip_spec());
        match res {
            LexerResult::Lexeme(pre) => {
                Self::lemma_advanced_twin(q1, pa, r1, q2, pb, r2, pre);
            },
            _ => {
                assert forall|i: int| 0 <= i < q1.num_rows_spec() implies #[trigger] q1.row_items(i)
                    == q2.row_items(i) && q1.row_allowed(i) == q2.row_allowed(i) by {
                    assert(q1.row_items(i) == pa.row_items(i));
                    assert(q2.row_items(i) == pb.row_items(i));
                    assert(pa.row_items(i) == pb.row_items(i));
                }
            },
        }
    }

    /// Twins that are committed have the same text.
    pub proof fn lemma_twin_text(&self, other: &Parser)
        requires
            self.twin(other),
            self.committed(),
        ensures
            other.committed(),
            self.text() == other.text(),
    {
        lemma_text_views(
            self.infos(),
            other.infos(),
            other.pending_bytes(),
            other.num_rows_spec(),
            other.num_rows_spec() as int,
        );
    }

    /// To speculate and then to commit is to commit. Where `after` is the
    /// parser `began` after a speculation that has ended, whatever is fed
    /// for good to both is accepted by both or refused by both, and makes
    /// the same of both: the same lexer stack, the same rows, the same
    /// number of row infos, the same captures, and the same text.
    pub proof fn lemma_commit_after_speculation(
        began: Parser,
        after: Parser,
        res: LexerResult,
        q1: Parser,
        r1: bool,
        q2: Parser,
        r2: bool,
    )
        requires
            began.wf(),
            began.committed(),
            after.wf(),
            after.restored(&began),
            q1.wf(),
            q2.wf(),
            q1.pushed(&began, res, r1),
            q2.pushed(&after, res, r2),
        ensures
            r1 == r2,
            q1.twin(&q2),
            q1.stack() == q2.stack(),
            q1.num_rows_spec() == q2.num_rows_spec(),
            q1.infos().len() == q2.infos().len(),
            q1.captures_view() == q2.captures_view(),
            q1.committed() ==> q2.committed() && q1.text() == q2.text(),
    {
        assert(began.twin(&after)) by {
            assert forall|i: int| 0 <= i < began.num_rows_spec() implies #[trigger] began.row_items(i)
                == after.row_items(i) && began.row_allowed(i) == after.row_allowed(i) by {
                assert(after.row_items(i) == began.row_items(i));
            }
        }
        Self::lemma_pushed_twin(q1, began, r1, q2, after, r2, res);
        if q1.committed() {
            q1.lemma_twin_text(&q2);
        }
    }
}

} // verus!
