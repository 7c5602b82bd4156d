//! Steps are determined: parsers that agree take the same steps.

use vstd::prelude::*;
use crate::earley::closure::lemma_rows_agree;
use crate::earley::closure::same_items;
use crate::earley::closure::same_rows;
use crate::earley::item::Item;
use crate::earley::lexer::LexerResult;
use crate::earley::lexer::PreLexeme;
use crate::earley::lexer::StateID;
use crate::earley::lexerspec::LexemeIdx;
use crate::earley::parser::LexerState;
use crate::earley::parser::Parser;
use crate::earley::parser::rows::lemma_seeds_same;
use crate::earley::parser::rows::SeedBy;
use crate::earley::parser::step::accepts_row;
use crate::earley::parser::step::transition_byte;
use crate::earley::rowbuild::lemma_allowed_same;

verus! {

/// Whether a row accepts does not depend on the order of its items.
pub proof fn lemma_accepts_same(g: crate::earley::grammar::CGrammar, r1: Seq<Item>, r2: Seq<Item>)
    requires
        same_items(r1, r2),
    ensures
        accepts_row(g, r1) == accepts_row(g, r2),
{
    if accepts_row(g, r1) {
        let i = choose|i: int|
            0 <= i < r1.len() && g.is_complete((#[trigger] r1[i]).rule_spec()) && g.lhs_spec(
                r1[i].rule_spec(),
            ) == g.start_spec();
        assert(r1.contains(r1[i]));
        assert(r2.contains(r1[i]));
        let j = choose|j: int| 0 <= j < r2.len() && r2[j] == r1[i];
        assert(g.is_complete(r2[j].rule_spec()));
    }
    if accepts_row(g, r2) {
        let i = choose|i: int|
            0 <= i < r2.len() && g.is_complete((#[trigger] r2[i]).rule_spec()) && g.lhs_spec(
                r2[i].rule_spec(),
            ) == g.start_spec();
        assert(r2.contains(r2[i]));
        assert(r1.contains(r2[i]));
        let j = choose|j: int| 0 <= j < r1.len() && r1[j] == r2[i];
        assert(g.is_complete(r1[j].rule_spec()));
    }
}

impl Parser {
    /// The two parsers are at the same point of the same parse: the same
    /// grammar and lexer, the same mode, the same lexer stack, and live rows
    /// that hold the same items, in whatever order, and allow the same lexeme
    /// classes. During speculation they also began to speculate at the same
    /// depth of the stack.
    pub open spec fn agrees(&self, other: &Parser) -> bool {
        &&& self.grammar_view() == other.grammar_view()
        &&& self.lexer_view() == other.lexer_view()
        &&& self.definitive() == other.definitive()
        &&& (!self.definitive() ==> self.trie_base() == other.trie_base())
        &&& self.stack() == other.stack()
        &&& forall|i: int| 0 <= i < self.num_rows_spec() ==> #[trigger] self.same_row(other, i)
    }

    /// The two parsers are at the same point of the same parse, in whatever
    /// mode each of them is: the same grammar and lexer, the same lexer
    /// stack, and live rows that hold the same items, in whatever order, and
    /// allow the same lexeme classes.
    pub open spec fn alike(&self, other: &Parser) -> bool {
        &&& self.grammar_view() == other.grammar_view()
        &&& self.lexer_view() == other.lexer_view()
        &&& self.stack() == other.stack()
        &&& forall|i: int| 0 <= i < self.num_rows_spec() ==> #[trigger] self.same_row(other, i)
    }

    /// Row `i` of the two parsers holds the same items, in whatever order,
    /// and allows the same lexeme classes.
    pub open spec fn same_row(&self, other: &Parser, i: int) -> bool {
        same_items(self.row_items(i), other.row_items(i)) && self.row_allowed(i) == other.row_allowed(i)
    }

    /// Parsers that agree have live rows that hold the same items.
    pub proof fn lemma_agrees_rows(&self, other: &Parser)
        requires
            self.alike(other),
        ensures
            same_rows(self.live_rows(), other.live_rows()),
            same_items(self.curr_items(), other.curr_items()),
            self.num_rows_spec() == other.num_rows_spec(),
    {
        let a = self.live_rows();
        let b = other.live_rows();
        assert forall|i: int| 0 <= i < a.len() implies same_items(#[trigger] a[i], b[i]) by {
            assert(self.same_row(other, i));
        }
        assert(self.same_row(other, self.num_rows_spec() - 1));
    }

    /// Parsers that agree can scan the same lexemes.
    pub proof fn lemma_scans_agree(pa: Parser, pb: Parser, pre: PreLexeme)
        requires
            pa.alike(&pb),
        ensures
            pa.scans(pre) == pb.scans(pre),
            pa.lexeme_bytes(pre) == pb.lexeme_bytes(pre),
            pa.hidden_bytes_of(pre) == pb.hidden_bytes_of(pre),
            same_items(pa.seeds_for(pre.idx), pb.seeds_for(pre.idx)),
    {
        pa.lemma_agrees_rows(&pb);
        let g = pa.grammar_view();
        lemma_seeds_same(g, pa.curr_items(), pb.curr_items(), SeedBy::Lexeme(pre.idx));
        if pre.idx == LexemeIdx::skip_spec() {
            let c1 = pa.curr_items();
            let c2 = pb.curr_items();
            if c1.len() > 0 {
                assert(c1.contains(c1[0]));
                assert(c2.contains(c1[0]));
            }
            if c2.len() > 0 {
                assert(c2.contains(c2[0]));
                assert(c1.contains(c2[0]));
            }
        }
    }

    /// The rows that parsers that agree scan a lexeme into hold the same
    /// items and allow the same lexeme classes.
    pub proof fn lemma_scanned_agree(q1: Parser, pa: Parser, q2: Parser, pb: Parser, pre: PreLexeme)
        requires
            pa.alike(&pb),
            q1.scanned(&pa, pre),
            q2.scanned(&pb, pre),
        ensures
            same_items(
                q1.row_items(pa.num_rows_spec() as int),
                q2.row_items(pa.num_rows_spec() as int),
            ),
            q1.row_allowed(pa.num_rows_spec() as int) == q2.row_allowed(pa.num_rows_spec() as int),
            forall|i: int| 0 <= i <= pa.num_rows_spec() ==> #[trigger] q1.same_row(&q2, i),
    {
        pa.lemma_agrees_rows(&pb);
        Self::lemma_scans_agree(pa, pb, pre);
        let n = pa.num_rows_spec() as int;
        let g = pa.grammar_view();
        let r1 = q1.row_items(n);
        let r2 = q2.row_items(n);
        if pre.idx == LexemeIdx::skip_spec() {
            assert(pa.same_row(&pb, n - 1));
        } else {
            lemma_rows_agree(
                g,
                pa.live_rows(),
                pb.live_rows(),
                pa.seeds_for(pre.idx),
                pb.seeds_for(pre.idx),
                r1,
                r2,
            );
            assert forall|lx: int| 0 <= lx < g.num_lexemes() implies q1.row_allowed(n)[lx]
                == q2.row_allowed(n)[lx] by {
                lemma_allowed_same(g, r1, r2, lx);
            }
            assert(q1.row_allowed(n) =~= q2.row_allowed(n));
        }
        assert(same_items(r1, r2));
        assert(q1.row_allowed(n) == q2.row_allowed(n));
        assert forall|i: int| 0 <= i <= pa.num_rows_spec() implies #[trigger] q1.same_row(&q2, i) by {
            if i < n {
                assert(q1.row_items(i) == pa.row_items(i));
                assert(q2.row_items(i) == pb.row_items(i));
                assert(q1.row_allowed(i) == pa.row_allowed(i));
                assert(q2.row_allowed(i) == pb.row_allowed(i));
                assert(pa.same_row(&pb, i));
            }
        }
    }

    /// Parsers that agree treat a lexeme alike: both accept it or both
    /// refuse it, and they agree afterwards.
    pub proof fn lemma_advanced_agree(
        q1: Parser,
        pa: Parser,
        r1: bool,
        q2: Parser,
        pb: Parser,
        r2: bool,
        pre: PreLexeme,
    )
        requires
            pa.wf(),
            pb.wf(),
            pa.agrees(&pb),
            q1.advanced(&pa, pre, r1),
            q2.advanced(&pb, pre, r2),
        ensures
            r1 == r2,
            q1.agrees(&q2),
    {
        Self::lemma_scans_agree(pa, pb, pre);
        pa.lemma_agrees_rows(&pb);
        let n = pa.num_rows_spec();
        let lexer = pa.lexer_view();
        let tb = transition_byte(pre);
        if !pa.scans(pre) {
            assert forall|i: int| 0 <= i < n implies #[trigger] q1.same_row(&q2, i) by {
                assert(q1.row_items(i) == pa.row_items(i));
                assert(q2.row_items(i) == pb.row_items(i));
                assert(pa.same_row(&pb, i));
            }
        } else if pre.hidden_len > 0 {
            Self::lemma_scanned_agree(q1, pa, q2, pb, pre);
            pa.lemma_pending_len();
            assert(q1.stack() == q1.stack_after_hidden(&pa, pre));
            assert(q2.stack() == q2.stack_after_hidden(&pb, pre));
            assert(q1.stack().last().row_idx == n as u32);
        } else {
            let s1 = q1.added_state(&pa, pre);
            let s2 = q2.added_state(&pb, pre);
            let d1 = pre.byte_next_row && s1 == StateID::dead_spec();
            let d2 = pre.byte_next_row && s2 == StateID::dead_spec();
            let c1 = tb is Some && lexer.check_for_single_byte_lexeme_spec(s1, tb->0) is Some;
            let c2 = tb is Some && lexer.check_for_single_byte_lexeme_spec(s2, tb->0) is Some;
            let second1 = lexer.check_for_single_byte_lexeme_spec(s1, tb->0)->0;
            let second2 = lexer.check_for_single_byte_lexeme_spec(s2, tb->0)->0;
            let w1 = if !d1 && c1 {
                q1.middle(&pa, pre, r1)
            } else {
                q1
            };
            let w2 = if !d2 && c2 {
                q2.middle(&pb, pre, r2)
            } else {
                q2
            };
            if !d1 && c1 {
                Self::lemma_middle(q1, pa, pre, r1);
            }
            if !d2 && c2 {
                Self::lemma_middle(q2, pb, pre, r2);
            }
            assert(w1.scanned(&pa, pre));
            assert(w2.scanned(&pb, pre));
            if !d1 && c1 {
                Self::lemma_mid_allowed(q1, w1, pa, second1, r1);
            }
            if !d2 && c2 {
                Self::lemma_mid_allowed(q2, w2, pb, second2, r2);
            }
            Self::lemma_scanned_agree(w1, pa, w2, pb, pre);
            assert(q1.row_allowed(n as int) == q2.row_allowed(n as int));
            assert(s1 == s2);
            if d1 {
                assert forall|i: int| 0 <= i < n implies #[trigger] q1.same_row(&q2, i) by {
                    assert(w1.same_row(&w2, i));
                }
            } else if c1 {
                assert(w1.num_rows_spec() == n + 1);
                assert(w2.num_rows_spec() == n + 1);
                assert(w1.agrees(&w2));
                Self::lemma_scans_agree(w1, w2, second1);
                if w1.scans(second1) {
                    Self::lemma_scanned_agree(q1, w1, q2, w2, second1);
                    assert(q1.stack().last().row_idx == (n + 1) as u32);
                    assert(q1.agrees(&q2));
                } else {
                    assert forall|i: int| 0 <= i < n implies #[trigger] q1.same_row(&q2, i) by {
                        assert(q1.row_items(i) == w1.row_items(i));
                        assert(q2.row_items(i) == w2.row_items(i));
                        assert(q1.row_allowed(i) == w1.row_allowed(i));
                        assert(q2.row_allowed(i) == w2.row_allowed(i));
                        assert(w1.same_row(&w2, i));
                    }
                    assert(q1.agrees(&q2));
                }
            } else {
                assert(q1.stack().last().row_idx == n as u32);
                assert(q1.agrees(&q2));
            }
        }
    }

    /// Whether a lexeme is accepted does not depend on the mode: parsers
    /// that are alike both accept it or both refuse it.
    pub proof fn lemma_advanced_alike(
        q1: Parser,
        pa: Parser,
        r1: bool,
        q2: Parser,
        pb: Parser,
        r2: bool,
        pre: PreLexeme,
    )
        requires
            pa.wf(),
            pb.wf(),
            pa.alike(&pb),
            q1.advanced(&pa, pre, r1),
            q2.advanced(&pb, pre, r2),
        ensures
            r1 == r2,
    {
        Self::lemma_scans_agree(pa, pb, pre);
        pa.lemma_agrees_rows(&pb);
        let n = pa.num_rows_spec();
        let lexer = pa.lexer_view();
        let tb = transition_byte(pre);
        if !pa.scans(pre) {
        } else if pre.hidden_len > 0 {
        } else {
            let s1 = q1.added_state(&pa, pre);
            let s2 = q2.added_state(&pb, pre);
            let d1 = pre.byte_next_row && s1 == StateID::dead_spec();
            let d2 = pre.byte_next_row && s2 == StateID::dead_spec();
            let c1 = tb is Some && lexer.check_for_single_byte_lexeme_spec(s1, tb->0) is Some;
            let c2 = tb is Some && lexer.check_for_single_byte_lexeme_spec(s2, tb->0) is Some;
            let second1 = lexer.check_for_single_byte_lexeme_spec(s1, tb->0)->0;
            let second2 = lexer.check_for_single_byte_lexeme_spec(s2, tb->0)->0;
            let w1 = if !d1 && c1 {
                q1.middle(&pa, pre, r1)
            } else {
                q1
            };
            let w2 = if !d2 && c2 {
                q2.middle(&pb, pre, r2)
            } else {
                q2
            };
            if !d1 && c1 {
                Self::lemma_middle(q1, pa, pre, r1);
            }
            if !d2 && c2 {
                Self::lemma_middle(q2, pb, pre, r2);
            }
            assert(w1.scanned(&pa, pre));
            assert(w2.scanned(&pb, pre));
            if !d1 && c1 {
                Self::lemma_mid_allowed(q1, w1, pa, second1, r1);
            }
            if !d2 && c2 {
                Self::lemma_mid_allowed(q2, w2, pb, second2, r2);
            }
            Self::lemma_scanned_agree(w1, pa, w2, pb, pre);
            assert(q1.row_allowed(n as int) == q2.row_allowed(n as int));
            assert(s1 == s2);
            if d1 {
            } else if c1 {
                assert(w1.num_rows_spec() == n + 1);
                assert(w2.num_rows_spec() == n + 1);
                assert(w1.alike(&w2));
                Self::lemma_scans_agree(w1, w2, second1);
            } else {
            }
        }
    }

    /// Whether a byte is accepted does not depend on the mode.
    pub proof fn lemma_pushed_alike(
        q1: Parser,
        pa: Parser,
        r1: bool,
        q2: Parser,
        pb: Parser,
        r2: bool,
        res: LexerResult,
    )
        requires
            pa.wf(),
            pb.wf(),
            pa.alike(&pb),
            q1.pushed(&pa, res, r1),
            q2.pushed(&pb, res, r2),
        ensures
            r1 == r2,
    {
        match res {
            LexerResult::Lexeme(pre) => {
                Self::lemma_advanced_alike(q1, pa, r1, q2, pb, r2, pre);
            },
            _ => {},
        }
    }

    /// A byte that can follow at a committed parser is accepted when it is
    /// fed for good to that parser.
    pub proof fn lemma_accepted_for_good(p: Parser, at: Parser, q: Parser, b: u8, r: bool)
        requires
            p.wf(),
            p.committed(),
            p.byte_accepted(b),
            at.wf(),
            at.restored(&p),
            q.pushed(&at, at.lexed(Some(b)), r),
        ensures
            r,
    {
        let (trial, q0) = choose|trial: Parser, q0: Parser|
            trial.begins_at(&p) && q0.wf() && #[trigger] q0.pushed(&trial, trial.lexed(Some(b)), true);
        trial.lemma_base_row(&p);
        assert(trial.num_rows_spec() == p.num_rows_spec());
        assert(at.num_rows_spec() == p.num_rows_spec());
        assert forall|i: int| 0 <= i < trial.num_rows_spec() implies #[trigger] trial.same_row(&at, i) by {
            assert(trial.row_items(i) == p.row_items(i));
            assert(at.row_items(i) == p.row_items(i));
            assert(trial.row_allowed(i) == p.row_allowed(i));
            assert(at.row_allowed(i) == p.row_allowed(i));
        }
        assert(trial.alike(&at));
        assert(trial.lexed(Some(b)) == at.lexed(Some(b)));
        Self::lemma_pushed_alike(q0, trial, true, q, at, r, trial.lexed(Some(b)));
    }

    /// After the second of two lexemes was scanned, the row of the first
    /// allows what it allowed before.
    pub proof fn lemma_mid_allowed(q: Parser, mid: Parser, p: Parser, second: PreLexeme, r: bool)
        requires
            mid.stack() == p.stack().push(mid.top()),
            mid.top().row_idx == p.num_rows_spec(),
            p.num_rows_spec() < 0xffff_ffff,
            q.second_scanned(&mid, &p, second, r),
        ensures
            q.row_allowed(p.num_rows_spec() as int) == mid.row_allowed(p.num_rows_spec() as int),
            q.row_items(p.num_rows_spec() as int) == mid.row_items(p.num_rows_spec() as int),
    {
        let n = p.num_rows_spec() as int;
        assert(mid.num_rows_spec() == n + 1);
        assert(q.row_items(n) == mid.row_items(n));
    }

    /// Parsers that agree treat what the lexer made of a byte alike.
    pub proof fn lemma_pushed_agree(
        q1: Parser,
        pa: Parser,
        r1: bool,
        q2: Parser,
        pb: Parser,
        r2: bool,
        res: LexerResult,
    )
        requires
            pa.wf(),
            pb.wf(),
            pa.agrees(&pb),
            q1.pushed(&pa, res, r1),
            q2.pushed(&pb, res, r2),
        ensures
            r1 == r2,
            q1.agrees(&q2),
    {
        let n = pa.num_rows_spec();
        match res {
            LexerResult::Lexeme(pre) => {
                Self::lemma_advanced_agree(q1, pa, r1, q2, pb, r2, pre);
            },
            _ => {
                assert forall|i: int| 0 <= i < n implies #[trigger] q1.same_row(&q2, i) by {
                    assert(q1.row_items(i) == pa.row_items(i));
                    assert(q2.row_items(i) == pb.row_items(i));
                    assert(pa.same_row(&pb, i));
                }
            },
        }
    }

    /// Parsers that agree end their pending lexemes alike.
    pub proof fn lemma_flushed_agree(q1: Parser, pa: Parser, r1: bool, q2: Parser, pb: Parser, r2: bool)
        requires
            pa.wf(),
            pb.wf(),
            pa.agrees(&pb),
            q1.flushed(&pa, r1),
            q2.flushed(&pb, r2),
        ensures
            r1 == r2,
            q1.agrees(&q2),
    {
        let n = pa.num_rows_spec();
        if pa.pending_bytes().len() == 0 {
            assert forall|i: int| 0 <= i < n implies #[trigger] q1.same_row(&q2, i) by {
                assert(q1.row_items(i) == pa.row_items(i));
                assert(q2.row_items(i) == pb.row_items(i));
                assert(pa.same_row(&pb, i));
            }
        } else {
            Self::lemma_pushed_agree(
                q1,
                pa,
                r1,
                q2,
                pb,
                r2,
                pa.lexer_view().try_lexeme_end_spec(pa.top().lexer_state),
            );
        }
    }

    /// `self` is a parser that has just begun to speculate at the committed
    /// parser `p`.
    pub open spec fn begins_at(&self, p: &Parser) -> bool {
        self.wf() && self.speculates_from(p) && self.stack() == p.stack()
    }

    /// Whether input may end at this committed parser: once speculation
    /// has begun, the pending lexeme can be ended, and the row that is
    /// reached then holds a completed rule of the start symbol.
    pub open spec fn may_end(&self) -> bool {
        exists|trial: Parser, end: Parser|
            trial.begins_at(self) && #[trigger] end.shows_accepting(&trial, true)
    }

    /// Whether the byte `b` can follow at this committed parser: once
    /// speculation has begun, the byte is accepted.
    pub open spec fn byte_accepted(&self, b: u8) -> bool {
        exists|trial: Parser, q: Parser|
            trial.begins_at(self) && q.wf() && #[trigger] q.pushed(&trial, trial.lexed(Some(b)), true)
    }

    /// Whether `b` is forced at this committed parser: input may not end
    /// here, and `b` is the one byte that can follow.
    pub open spec fn forced(&self, b: u8) -> bool {
        &&& !self.may_end()
        &&& self.byte_accepted(b)
        &&& forall|c: u8| c != b ==> !#[trigger] self.byte_accepted(c)
    }

    /// Parsers that began to speculate at the same committed parser agree.
    pub proof fn lemma_begins_agree(s1: Parser, s2: Parser, p: Parser)
        requires
            s1.begins_at(&p),
            s2.begins_at(&p),
        ensures
            s1.agrees(&s2),
    {
        s1.lemma_base_row(&p);
        s2.lemma_base_row(&p);
        assert(s1.num_rows_spec() == p.num_rows_spec());
        assert forall|i: int| 0 <= i < s1.num_rows_spec() implies #[trigger] s1.same_row(&s2, i) by {
            assert(s1.row_items(i) == p.row_items(i));
            assert(s2.row_items(i) == p.row_items(i));
        }
    }

    /// Whether input may end is decided by any one speculation: by whether
    /// the pending lexeme could be ended, and whether the row that was
    /// reached accepts.
    pub proof fn lemma_may_end(p: Parser, trial: Parser, end: Parser, flushed: bool)
        requires
            trial.begins_at(&p),
            end.wf(),
            end.flushed(&trial, flushed),
        ensures
            p.may_end() == (flushed && accepts_row(end.grammar_view(), end.curr_items())),
    {
        if flushed && accepts_row(end.grammar_view(), end.curr_items()) {
            assert(end.shows_accepting(&trial, true));
        }
        if p.may_end() {
            let (trial2, end2) = choose|trial2: Parser, end2: Parser|
                trial2.begins_at(&p) && #[trigger] end2.shows_accepting(&trial2, true);
            Self::lemma_begins_agree(trial, trial2, p);
            Self::lemma_flushed_agree(end, trial, flushed, end2, trial2, true);
            end.lemma_agrees_rows(&end2);
            lemma_accepts_same(end.grammar_view(), end.curr_items(), end2.curr_items());
        }
    }

    /// Whether a byte can follow is decided by any one attempt to feed it
    /// to a parser that agrees with one that has just begun to speculate.
    pub proof fn lemma_byte_accepted(p: Parser, trial: Parser, q: Parser, b: u8, r: bool)
        requires
            trial.begins_at(&p),
            q.wf(),
            q.pushed(&trial, trial.lexed(Some(b)), r),
        ensures
            p.byte_accepted(b) == r,
    {
        if p.byte_accepted(b) {
            let (trial2, q2) = choose|trial2: Parser, q2: Parser|
                trial2.begins_at(&p) && q2.wf() && #[trigger] q2.pushed(
                    &trial2,
                    trial2.lexed(Some(b)),
                    true,
                );
            Self::lemma_begins_agree(trial, trial2, p);
            assert(trial.lexed(Some(b)) == trial2.lexed(Some(b)));
            Self::lemma_pushed_agree(q, trial, r, q2, trial2, true, trial.lexed(Some(b)));
        }
    }

    /// What can follow at a committed parser can follow at any committed
    /// parser that looks the same.
    pub proof fn lemma_restored_same(a: Parser, b: Parser)
        requires
            a.restored(&b),
            b.committed(),
        ensures
            a.may_end() == b.may_end(),
            forall|c: u8| #[trigger] a.byte_accepted(c) == b.byte_accepted(c),
            forall|c: u8| #[trigger] a.forced(c) == b.forced(c),
    {
        assert forall|trial: Parser| #[trigger] trial.begins_at(&a) == trial.begins_at(&b) by {
            if trial.begins_at(&a) {
                assert forall|i: int| 0 <= i < b.num_rows_spec() implies #[trigger] trial.row_items(i)
                    == b.row_items(i) && trial.row_allowed(i) == b.row_allowed(i) by {
                    assert(a.row_items(i) == b.row_items(i));
                }
            }
            if trial.begins_at(&b) {
                assert forall|i: int| 0 <= i < a.num_rows_spec() implies #[trigger] trial.row_items(i)
                    == a.row_items(i) && trial.row_allowed(i) == a.row_allowed(i) by {
                    assert(a.row_items(i) == b.row_items(i));
                }
            }
        }
        assert(a.may_end() == b.may_end()) by {
            if a.may_end() {
                let (trial, end) = choose|trial: Parser, end: Parser|
                    trial.begins_at(&a) && #[trigger] end.shows_accepting(&trial, true);
                assert(trial.begins_at(&b));
            }
            if b.may_end() {
                let (trial, end) = choose|trial: Parser, end: Parser|
                    trial.begins_at(&b) && #[trigger] end.shows_accepting(&trial, true);
                assert(trial.begins_at(&a));
            }
        }
        assert forall|c: u8| #[trigger] a.byte_accepted(c) == b.byte_accepted(c) by {
            if a.byte_accepted(c) {
                let (trial, q) = choose|trial: Parser, q: Parser|
                    trial.begins_at(&a) && q.wf() && #[trigger] q.pushed(&trial, trial.lexed(Some(c)), true);
                assert(trial.begins_at(&b));
            }
            if b.byte_accepted(c) {
                let (trial, q) = choose|trial: Parser, q: Parser|
                    trial.begins_at(&b) && q.wf() && #[trigger] q.pushed(&trial, trial.lexed(Some(c)), true);
                assert(trial.begins_at(&a));
            }
        }
        assert forall|c: u8| #[trigger] a.forced(c) == b.forced(c) by {
            if a.forced(c) {
                assert forall|d: u8| d != c implies !#[trigger] b.byte_accepted(d) by {
                    assert(a.byte_accepted(d) == b.byte_accepted(d));
                }
            }
            if b.forced(c) {
                assert forall|d: u8| d != c implies !#[trigger] a.byte_accepted(d) by {
                    assert(a.byte_accepted(d) == b.byte_accepted(d));
                }
            }
        }
    }

    /// One step of forcing: at the committed parser `self` the byte `b` is
    /// forced, and `next` is what feeding it for good made of the parser.
    /// The parser that was fed (`at`) is `self` after the speculation that
    /// found the byte.
    pub open spec fn forced_step(&self, b: u8, next: &Parser) -> bool {
        &&& self.wf()
        &&& self.committed()
        &&& self.forced(b)
        &&& next.wf()
        &&& next.committed()
        &&& exists|at: Parser|
            at.wf() && at.restored(self) && #[trigger] next.pushed(&at, at.lexed(Some(b)), true)
    }

    /// The bytes `bytes` were forced one after the other, from the parser
    /// `states[0]` on, and `states` are the parsers that were reached.
    pub open spec fn forced_run(states: Seq<Parser>, bytes: Seq<u8>) -> bool {
        &&& states.len() == bytes.len() + 1
        &&& forall|i: int|
            0 <= i < bytes.len() ==> (#[trigger] states[i]).forced_step(bytes[i], &states[i + 1])
    }

    /// A parser whose committed state was brought back agrees with the
    /// parser that it was.
    pub proof fn lemma_restored_agrees(q0: Parser, began: Parser)
        requires
            q0.restored(&began),
            began.committed(),
        ensures
            q0.agrees(&began),
    {
        assert forall|i: int| 0 <= i < q0.num_rows_spec() implies #[trigger] q0.same_row(&began, i) by {
            assert(q0.row_items(i) == began.row_items(i));
        }
    }

    /// To speculate and then to commit is to commit. Where `q0` is the
    /// parser `began` after a speculation that has ended, a byte is accepted by
    /// the one if and only if it is accepted by the other, and the parsers
    /// that the byte makes of them agree.
    pub proof fn lemma_speculate_then_commit(
        began: Parser,
        q0: Parser,
        direct: Parser,
        r_direct: bool,
        after: Parser,
        r_after: bool,
        byte: Option<u8>,
    )
        requires
            began.wf(),
            began.committed(),
            q0.wf(),
            q0.restored(&began),
            direct.pushed(&began, began.lexed(byte), r_direct),
            after.pushed(&q0, q0.lexed(byte), r_after),
        ensures
            r_direct == r_after,
            after.agrees(&direct),
    {
        Self::lemma_restored_agrees(q0, began);
        assert(q0.lexed(byte) == began.lexed(byte));
        Self::lemma_pushed_agree(after, q0, r_after, direct, began, r_direct, q0.lexed(byte));
    }
}

} // verus!
