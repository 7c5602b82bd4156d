//! Copies of a parser: a second parser at the same point of the same parse,
//! which shares the grammar and the lexer's tables with the first.

use vstd::prelude::*;
use crate::earley::closure::rows_view;
use crate::earley::item::Item;
use crate::earley::item::ItemProps;
use crate::earley::item::Row;
use crate::earley::item::Scratch;
use crate::earley::lexer::share;
use crate::earley::lexer::Lexer;
use crate::earley::lexerspec::LexemeIdx;
use crate::earley::parser::LexerState;
use crate::earley::parser::Parser;
use crate::earley::parser::RowInfo;
use crate::earley::rowbuild::captures_seq;
use crate::earley::parser::step::text_upto;

verus! {

/// What a row info holds, as plain values: the byte offset, the lexeme's
/// class, bytes and number of hidden bytes, the token window, and the token
/// budgets.
pub open spec fn info_view(info: RowInfo) -> (usize, LexemeIdx, Seq<u8>, usize, usize, usize, Seq<(LexemeIdx, usize)>) {
    (
        info.start_byte_idx,
        info.lexeme.idx,
        info.lexeme.bytes@,
        info.lexeme.hidden_len,
        info.token_idx_start,
        info.token_idx_stop,
        info.max_tokens@,
    )
}

/// What rows stand for depends on what their row infos hold.
pub proof fn lemma_text_views(a: Seq<RowInfo>, b: Seq<RowInfo>, pending: Seq<u8>, n: nat, k: int)
    requires
        0 <= k <= a.len(),
        a.len() == b.len(),
        forall|i: int| 0 <= i < a.len() ==> info_view(#[trigger] a[i]) == info_view(b[i]),
    ensures
        text_upto(a, pending, n, k) == text_upto(b, pending, n, k),
    decreases k,
{
    if k > 0 {
        lemma_text_views(a, b, pending, n, k - 1);
        assert(info_view(a[k - 1]) == info_view(b[k - 1]));
    }
}

impl Parser {
    /// `self` is a copy of `src`: the same grammar, lexer and mode, the same
    /// lexer stack, the same rows and row infos, the same captures, counters
    /// and notes of a nested grammar.
    pub open spec fn copies(&self, src: &Parser) -> bool {
        &&& self.grammar_view() == src.grammar_view()
        &&& self.lexer_view() == src.lexer_view()
        &&& self.definitive() == src.definitive()
        &&& self.trie_base() == src.trie_base()
        &&& self.last_collapse_view() == src.last_collapse_view()
        &&& self.token_idx_view() == src.token_idx_view()
        &&& self.byte_idx_view() == src.byte_idx_view()
        &&& self.pending_gen_grammar() == src.pending_gen_grammar()
        &&& self.gen_grammar_accepting() == src.gen_grammar_accepting()
        &&& self.stack() == src.stack()
        &&& self.rows_len() == src.rows_len()
        &&& self.rows_kept(src, src.rows_len())
        &&& self.captures_view() == src.captures_view()
        &&& self.stats_view() == src.stats_view()
        &&& self.infos().len() == src.infos().len()
        &&& forall|i: int|
            0 <= i < src.infos().len() ==> info_view(#[trigger] self.infos()[i]) == info_view(src.infos()[i])
    }

    /// A copy is at the same point of the same parse as what it was copied
    /// from: it is committed if that is, has the same text, and whatever is
    /// fed to both is accepted by both or refused by both.
    pub proof fn lemma_copy_alike(&self, src: &Parser)
        requires
            self.copies(src),
            src.wf(),
        ensures
            self.alike(src),
            self.committed() == src.committed(),
            src.committed() ==> self.text() == src.text(),
    {
        src.lemma_rows_len();
        assert forall|i: int| 0 <= i < self.num_rows_spec() implies #[trigger] self.same_row(src, i) by {
            assert(self.row_items(i) == src.row_items(i));
        }
        if src.committed() {
            lemma_text_views(
                self.infos(),
                src.infos(),
                src.pending_bytes(),
                src.num_rows_spec(),
                src.num_rows_spec() as int,
            );
        }
    }

    /// A parser whose parts hold what the parts of `src` hold is well-formed
    /// as `src` is, and is a copy of it.
    pub(crate) proof fn lemma_copied(&self, src: &Parser)
        requires
            src.wf(),
            self.grammar == src.grammar,
            self.lexer == src.lexer,
            self.scratch.row_start == src.scratch.row_start,
            self.scratch.row_end == src.scratch.row_end,
            self.scratch.definitive == src.scratch.definitive,
            self.scratch.items@ == src.scratch.items@,
            self.scratch.item_props@ == src.scratch.item_props@,
            self.trie_lexer_stack == src.trie_lexer_stack,
            captures_seq(self.captures@) == captures_seq(src.captures@),
            self.lexer_stack@ == src.lexer_stack@,
            self.rows@.len() == src.rows@.len(),
            forall|i: int|
                0 <= i < src.rows@.len() ==> {
                    &&& (#[trigger] self.rows@[i]).first_item == src.rows@[i].first_item
                    &&& self.rows@[i].last_item == src.rows@[i].last_item
                    &&& self.rows@[i].allowed_lexemes@ == src.rows@[i].allowed_lexemes@
                },
            self.row_infos@.len() == src.row_infos@.len(),
            forall|i: int|
                0 <= i < src.row_infos@.len() ==> info_view(#[trigger] self.row_infos@[i]) == info_view(
                    src.row_infos@[i],
                ),
            self.stats == src.stats,
            self.last_collapse == src.last_collapse,
            self.token_idx == src.token_idx,
            self.byte_idx == src.byte_idx,
            self.trie_gen_grammar == src.trie_gen_grammar,
            self.trie_gen_grammar_accepting == src.trie_gen_grammar_accepting,
        ensures
            self.wf(),
            self.copies(src),
    {
        assert forall|i: int| 0 <= i < src.rows@.len() implies #[trigger] self.row_items(i) == src.row_items(
            i,
        ) && self.row_allowed(i) == src.row_allowed(i) by {
            assert(self.rows@[i].first_item == src.rows@[i].first_item);
        }
        let n = src.num_rows_spec();
        assert(self.num_rows_spec() == n);
        assert(src.rows_wf_n(n));
        assert(rows_view(self.rows@, self.scratch.items@, n) =~= rows_view(src.rows@, src.scratch.items@, n))
            by {
            assert forall|i: int| 0 <= i < n implies #[trigger] rows_view(
                self.rows@,
                self.scratch.items@,
                n,
            )[i] == rows_view(src.rows@, src.scratch.items@, n)[i] by {
                assert(self.rows@[i].first_item == src.rows@[i].first_item);
            }
        }
        assert(self.rows_wf_n(n)) by {
            assert forall|i: int| 0 <= i < n implies {
                &&& (#[trigger] self.rows@[i]).first_item <= self.rows@[i].last_item
                &&& self.rows@[i].last_item <= self.scratch.items@.len()
                &&& self.rows@[i].allowed_lexemes@.len() == self.grammar.num_lexemes()
            } by {
                assert(src.rows@[i].first_item <= src.rows@[i].last_item);
            }
            assert forall|i: int, j: int| 0 <= i <= j < n implies (#[trigger] self.rows@[i]).last_item <= (
            #[trigger] self.rows@[j]).last_item by {
                assert(src.rows@[i].last_item <= src.rows@[j].last_item);
            }
            assert forall|i: int, j: int| 0 <= i < j < n implies (#[trigger] self.rows@[i]).last_item <= (
            #[trigger] self.rows@[j]).first_item by {
                assert(src.rows@[i].last_item <= src.rows@[j].first_item);
            }
            assert forall|i: int| 0 <= i < n implies (#[trigger] self.row_items(i)).no_duplicates() by {
                assert(src.row_items(i).no_duplicates());
            }
        }
        assert(self.stack_wf()) by {
            assert(src.stack_wf());
        }
        assert(self.infos_wf()) by {
            assert(src.infos_wf());
            assert forall|i: int| 0 <= i < self.row_infos@.len() implies (
            #[trigger] self.row_infos@[i]).lexeme.wf() by {
                assert(info_view(self.row_infos@[i]) == info_view(src.row_infos@[i]));
                assert(src.row_infos@[i].lexeme.wf());
            }
            if src.scratch.definitive {
                assert forall|i: int| 0 <= i < self.row_infos@.len() implies (
                #[trigger] self.rows@[i]).last_item <= self.scratch.item_props@.len() by {
                    assert(src.rows@[i].last_item <= src.scratch.item_props@.len());
                }
            }
            assert forall|i: int| 0 <= i < self.row_infos@.len() implies (#[trigger] self.rows@[i]).first_item
                <= self.rows@[i].last_item <= self.scratch.items@.len() by {
                assert(src.rows@[i].first_item <= src.rows@[i].last_item);
            }
            let last = self.row_infos@.len() - 1;
            assert(info_view(self.row_infos@[last]) == info_view(src.row_infos@[last]));
        }
    }

    /// A copy of the rows.
    pub(crate) fn copy_rows(&self) -> (r: Vec<Row>)
        ensures
            r@.len() == self.rows@.len(),
            forall|i: int|
                0 <= i < self.rows@.len() ==> {
                    &&& (#[trigger] r@[i]).first_item == self.rows@[i].first_item
                    &&& r@[i].last_item == self.rows@[i].last_item
                    &&& r@[i].allowed_lexemes@ == self.rows@[i].allowed_lexemes@
                },
    {
        let mut r: Vec<Row> = Vec::new();
        let mut i: usize = 0;
        while i < self.rows.len()
            invariant
                i <= self.rows@.len(),
                r@.len() == i,
                forall|k: int|
                    0 <= k < i ==> {
                        &&& (#[trigger] r@[k]).first_item == self.rows@[k].first_item
                        &&& r@[k].last_item == self.rows@[k].last_item
                        &&& r@[k].allowed_lexemes@ == self.rows@[k].allowed_lexemes@
                    },
            decreases self.rows@.len() - i,
        {
            r.push(self.rows[i].copy());
            i += 1;
        }
        r
    }

    /// A copy of the row infos.
    pub(crate) fn copy_infos(&self) -> (r: Vec<RowInfo>)
        ensures
            r@.len() == self.row_infos@.len(),
            forall|i: int|
                0 <= i < self.row_infos@.len() ==> info_view(#[trigger] r@[i]) == info_view(self.row_infos@[i]),
    {
        let mut r: Vec<RowInfo> = Vec::new();
        let mut i: usize = 0;
        while i < self.row_infos.len()
            invariant
                i <= self.row_infos@.len(),
                r@.len() == i,
                forall|k: int| 0 <= k < i ==> info_view(#[trigger] r@[k]) == info_view(self.row_infos@[k]),
            decreases self.row_infos@.len() - i,
        {
            let info = &self.row_infos[i];
            r.push(
                RowInfo {
                    start_byte_idx: info.start_byte_idx,
                    lexeme: info.lexeme.copy(),
                    token_idx_start: info.token_idx_start,
                    token_idx_stop: info.token_idx_stop,
                    max_tokens: copy_pairs(&info.max_tokens),
                },
            );
            i += 1;
        }
        r
    }

    /// A copy of the captures.
    pub(crate) fn copy_captures(&self) -> (r: Vec<(String, Vec<u8>)>)
        ensures
            captures_seq(r@) == captures_seq(self.captures@),
    {
        let mut r: Vec<(String, Vec<u8>)> = Vec::new();
        let mut i: usize = 0;
        while i < self.captures.len()
            invariant
                i <= self.captures@.len(),
                captures_seq(r@) == captures_seq(self.captures@.take(i as int)),
            decreases self.captures@.len() - i,
        {
            let name = self.captures[i].0.clone();
            let bytes = self.captures[i].1.clone();
            let ghost before = r@;
            proof {
                assert(name@ == self.captures@[i as int].0@);
                assert(bytes@ =~= self.captures@[i as int].1@);
            }
            r.push((name, bytes));
            proof {
                assert(self.captures@.take(i + 1) =~= self.captures@.take(i as int).push(
                    self.captures@[i as int],
                ));
                assert(captures_seq(r@) =~= captures_seq(before).push((name@, bytes@)));
                assert(captures_seq(self.captures@.take(i + 1)) =~= captures_seq(
                    self.captures@.take(i as int),
                ).push((self.captures@[i as int].0@, self.captures@[i as int].1@)));
            }
            i += 1;
        }
        proof {
            assert(self.captures@.take(self.captures@.len() as int) =~= self.captures@);
        }
        r
    }
}

/// A copy of a list of pairs.
fn copy_pairs(list: &Vec<(LexemeIdx, usize)>) -> (r: Vec<(LexemeIdx, usize)>)
    ensures
        r@ == list@,
{
    let mut out: Vec<(LexemeIdx, usize)> = Vec::new();
    let mut i: usize = 0;
    while i < list.len()
        invariant
            i <= list@.len(),
            out@ == list@.take(i as int),
        decreases list@.len() - i,
    {
        out.push(list[i]);
        proof {
            assert(out@ =~= list@.take(i + 1));
        }
        i += 1;
    }
    proof {
        assert(list@.take(list@.len() as int) =~= list@);
    }
    out
}

/// A copy of a list of items.
fn copy_items(list: &Vec<Item>) -> (r: Vec<Item>)
    ensures
        r@ == list@,
{
    let mut out: Vec<Item> = Vec::new();
    let mut i: usize = 0;
    while i < list.len()
        invariant
            i <= list@.len(),
            out@ == list@.take(i as int),
        decreases list@.len() - i,
    {
        out.push(list[i]);
        proof {
            assert(out@ =~= list@.take(i + 1));
        }
        i += 1;
    }
    proof {
        assert(list@.take(list@.len() as int) =~= list@);
    }
    out
}

/// A copy of the bookkeeping of items.
fn copy_props(list: &Vec<ItemProps>) -> (r: Vec<ItemProps>)
    ensures
        r@ == list@,
{
    let mut out: Vec<ItemProps> = Vec::new();
    let mut i: usize = 0;
    while i < list.len()
        invariant
            i <= list@.len(),
            out@ == list@.take(i as int),
        decreases list@.len() - i,
    {
        out.push(list[i]);
        proof {
            assert(out@ =~= list@.take(i + 1));
        }
        i += 1;
    }
    proof {
        assert(list@.take(list@.len() as int) =~= list@);
    }
    out
}

impl Clone for Parser {
    /// A second parser at the same point of the same parse. It shares the
    /// grammar and the lexer's tables with the first, and nothing else: what
    /// is fed to the one does not show in the other.
    fn clone(&self) -> (r: Parser)
        ensures
            self.wf() ==> r.wf() && r.copies(self),
    {
        let r = Parser {
            lexer: Lexer {
                dfa: share(&self.lexer.dfa),
                greedy: self.lexer.greedy,
                num_lexemes: self.lexer.num_lexemes,
            },
            grammar: share(&self.grammar),
            scratch: Scratch {
                row_start: self.scratch.row_start,
                row_end: self.scratch.row_end,
                items: copy_items(&self.scratch.items),
                item_props: copy_props(&self.scratch.item_props),
                definitive: self.scratch.definitive,
            },
            trie_lexer_stack: self.trie_lexer_stack,
            captures: self.copy_captures(),
            lexer_stack: self.copy_stack(),
            rows: self.copy_rows(),
            row_infos: self.copy_infos(),
            stats: self.stats,
            last_collapse: self.last_collapse,
            token_idx: self.token_idx,
            byte_idx: self.byte_idx,
            trie_gen_grammar: self.trie_gen_grammar,
            trie_gen_grammar_accepting: self.trie_gen_grammar_accepting,
        };
        proof {
            if self.wf() {
                r.lemma_copied(self);
            }
        }
        r
    }
}

} // verus!
