//! Making a parser: the first row.

use vstd::prelude::*;
use crate::earley::closure::is_closed_run;
use std::sync::Arc;
use crate::earley::closure::closed_from;
use crate::earley::closure::item_valid;
use crate::earley::closure::row_inv;
use crate::earley::closure::rows_view;
use crate::earley::closure::with_item;
use crate::earley::grammar::CGrammar;
use crate::earley::grammar::RuleIdx;
use crate::earley::grammar::shared_grammar;
use crate::earley::item::Item;
use crate::earley::item::Row;
use crate::earley::item::Scratch;
use crate::earley::lexer::Lexer;
use crate::earley::lexer::LexerError;
use crate::earley::lexer::StateID;
use crate::earley::lexerspec::Lexeme;
use crate::earley::lexerspec::LexemeIdx;
use crate::earley::parser::LexerState;
use crate::earley::parser::Parser;
use crate::earley::parser::ParserError;
use crate::earley::parser::ParserStats;
use crate::earley::parser::RowInfo;
use crate::earley::rowbuild::captures_seq;
use crate::earley::rowbuild::close_row;
use crate::earley::rowbuild::row_budgets;
use crate::earley::rowbuild::row_captures;
use crate::earley::rowbuild::wants_lexeme;

verus! {

/// The items that begin the rules `rules` in row `k`, each once, in the order
/// of `rules`.
pub open spec fn unique_items(rules: Seq<RuleIdx>, k: nat) -> Seq<Item>
    decreases rules.len(),
{
    if rules.len() == 0 {
        seq![]
    } else {
        with_item(unique_items(rules.drop_last(), k), Item::spec_new(rules.last(), k))
    }
}

/// The seeds of the first row: the beginnings of the rules of the start
/// symbol.
pub open spec fn start_seeds(g: CGrammar) -> Seq<Item> {
    unique_items(g.symbol(g.start_spec()).rules@, 0)
}

impl Parser {
    /// A parser for `grammar` that has read nothing: one row, closed over
    /// the rules of the start symbol, and a lexer stack of one frame, in the
    /// start state for the lexeme classes that the row allows. The skip class
    /// is not among them.
    pub fn new(grammar: Arc<CGrammar>) -> (r: Result<Parser, ParserError>)
        requires
            grammar.wf(),
        ensures
            r is Ok <==> grammar.num_lexemes() >= 1 && grammar.lexer_spec_view().dfa.wf(grammar.num_lexemes())
                && start_seeds(*grammar).len() > 0,
            r matches Err(ParserError::Lexer(e)) ==> {
                &&& !(grammar.num_lexemes() >= 1 && grammar.lexer_spec_view().dfa.wf(
                    grammar.num_lexemes(),
                ))
                &&& (e == LexerError::NoLexemes <==> grammar.num_lexemes() == 0)
            },
            r matches Err(ParserError::InitialPushFailed) ==> {
                &&& grammar.num_lexemes() >= 1
                &&& grammar.lexer_spec_view().dfa.wf(grammar.num_lexemes())
                &&& start_seeds(*grammar).len() == 0
            },
            r matches Ok(p) ==> {
                &&& p.wf()
                &&& p.committed()
                &&& p.rows_len() == 1
                &&& p.grammar_view() == *grammar
                &&& p.lexer_view().dfa_view() == *grammar.lexer_spec_view().dfa
                &&& p.lexer_view().greedy_spec() == grammar.lexer_spec_view().greedy
                &&& p.stack() == seq![
                    LexerState {
                        row_idx: 0,
                        lexer_state: p.lexer_view().start_state_spec(p.row_allowed(0), None),
                        byte: None,
                    },
                ]
                &&& start_seeds(*grammar).len() > 0
                &&& start_seeds(*grammar).is_prefix_of(p.row_items(0))
                &&& row_inv(*grammar, Seq::empty(), start_seeds(*grammar), p.row_items(0))
                &&& closed_from(*grammar, Seq::empty(), p.row_items(0), 0)
                &&& is_closed_run(*grammar, Seq::empty(), start_seeds(*grammar), 0, p.row_items(0))
                &&& p.row_allowed(0).len() == grammar.num_lexemes()
                &&& forall|lx: int|
                    0 <= lx < grammar.num_lexemes() ==> #[trigger] p.row_allowed(0)[lx] == (lx != 0
                        && wants_lexeme(*grammar, p.row_items(0), 0, p.row_items(0).len() as int, lx))
                &&& p.infos().len() == 1
                &&& p.infos()[0].lexeme.is_bogus_spec()
                &&& p.infos()[0].lexeme.hidden_len == 0
                &&& p.text() == Seq::<u8>::empty()
                &&& p.infos()[0].token_idx_start == 0
                &&& p.infos()[0].token_idx_stop == 0
                &&& p.infos()[0].start_byte_idx == 0
                &&& p.infos()[0].max_tokens@ == row_budgets(*grammar, p.row_items(0))
                &&& p.captures_view() == row_captures(
                    *grammar,
                    Seq::empty(),
                    Seq::empty(),
                    Seq::empty(),
                    0,
                    p.row_items(0),
                )
                &&& p.stats_view() == (ParserStats {
                    rows: 1,
                    definitive_bytes: 0,
                    lexer_ops: 0,
                    all_items: p.row_items(0).len() as usize,
                    hidden_bytes: 0,
                })
                &&& p.token_idx_view() == 0
                &&& p.byte_idx_view() == 0
                &&& p.last_collapse_view() == 0
                &&& p.pending_gen_grammar() is None
                &&& !p.gen_grammar_accepting()
            },
    {
        let lexer = match Lexer::from(grammar.lexer_spec()) {
            Ok(lexer) => lexer,
            Err(e) => {
                return Err(ParserError::Lexer(e));
            },
        };
        let ghost g = shared_grammar(grammar);
        let start = grammar.start();
        let mut scratch = Scratch::new();
        let rules = grammar.rules_of(start);
        proof {
            assert(g.symbol_wf(start));
            assert(rules@.take(0) =~= Seq::<RuleIdx>::empty());
            assert(scratch.row_view() =~= Seq::<Item>::empty());
        }
        let mut i: usize = 0;
        while i < rules.len()
            invariant
                i <= rules@.len(),
                g == *grammar,
                g.wf(),
                g.symbol_wf(start),
                *rules == g.symbol(start).rules,
                scratch.wf(),
                scratch.is_definitive(),
                scratch.row_start_spec() == 0,
                scratch.row_view() == unique_items(rules@.take(i as int), 0),
                scratch.row_view().no_duplicates(),
                forall|k: int|
                    0 <= k < scratch.row_view().len() ==> item_valid(g, 0, #[trigger] scratch.row_view()[k]),
            decreases rules@.len() - i,
        {
            let ghost row0 = scratch.row_view();
            let item = Item::new(rules[i], 0);
            proof {
                assert(rules@.take(i + 1).drop_last() =~= rules@.take(i as int));
                assert(rules@.take(i + 1).last() == rules@[i as int]);
                assert(g.valid_rule(rules@[i as int]));
            }
            scratch.add_unique(item, 0);
            proof {
                let row1 = scratch.row_view();
                if !row0.contains(item) {
                    assert forall|a: int, b: int| 0 <= a < row1.len() && 0 <= b < row1.len() && a
                        != b implies row1[a] != row1[b] by {
                        if b == row0.len() {
                            assert(row0.contains(row0[a]));
                        }
                        if a == row0.len() {
                            assert(row0.contains(row0[b]));
                        }
                    }
                }
            }
            i += 1;
        }
        proof {
            assert(rules@.take(rules@.len() as int) =~= rules@);
        }
        let ghost seeds = scratch.row_view();
        let rows: Vec<Row> = Vec::new();
        let row_infos: Vec<RowInfo> = Vec::new();
        let mut captures: Vec<(String, Vec<u8>)> = Vec::new();
        let bogus = Lexeme::bogus();
        proof {
            assert(rows_view(rows@, scratch.items_view(), 0) =~= Seq::<Seq<Item>>::empty());
            assert(bogus.visible_bytes_spec() =~= Seq::<u8>::empty());
            assert(bogus.hidden_bytes_spec() =~= Seq::<u8>::empty());
            assert(captures_seq(captures@) =~= Seq::<(Seq<char>, Seq<u8>)>::empty());
        }
        let (mut allowed_lexemes, budgets) = close_row(
            &mut scratch,
            &*grammar,
            &rows,
            &row_infos,
            &mut captures,
            0,
            0,
            &bogus,
        );
        let row_len = scratch.row_len();
        if row_len == 0 {
            proof {
                assert(seeds =~= scratch.row_view().subrange(0, seeds.len() as int));
            }
            return Err(ParserError::InitialPushFailed);
        }
        // The first row does not allow the skip class.
        allowed_lexemes.set(LexemeIdx::skip().as_usize(), false);
        let lexer_state = lexer.start_state(&allowed_lexemes, None);
        let row = scratch.work_row(allowed_lexemes);
        let mut rows = rows;
        rows.push(row);
        let mut row_infos = row_infos;
        row_infos.push(
            RowInfo {
                lexeme: Lexeme::bogus(),
                token_idx_start: 0,
                token_idx_stop: 0,
                start_byte_idx: 0,
                max_tokens: budgets,
            },
        );
        let mut lexer_stack: Vec<LexerState> = Vec::new();
        lexer_stack.push(LexerState { row_idx: 0, lexer_state, byte: None });
        let p = Parser {
            lexer,
            grammar,
            scratch,
            trie_lexer_stack: usize::MAX,
            captures,
            lexer_stack,
            rows,
            row_infos,
            stats: ParserStats {
                rows: 1,
                definitive_bytes: 0,
                lexer_ops: 0,
                all_items: row_len,
                hidden_bytes: 0,
            },
            last_collapse: 0,
            token_idx: 0,
            byte_idx: 0,
            trie_gen_grammar: None,
            trie_gen_grammar_accepting: false,
        };
        proof {
            assert(p.row_items(0) == p.scratch.row_view());
            assert(p.row_items(0).skip(0) =~= p.row_items(0));
            assert(p.stack() =~= seq![
                LexerState {
                    row_idx: 0,
                    lexer_state: p.lexer_view().start_state_spec(p.row_allowed(0), None),
                    byte: None,
                },
            ]);
            let rv = rows_view(p.rows@, p.scratch.items@, 1);
            assert forall|a: int, b: int| 0 <= a < rv.len() && 0 <= b < rv[a].len() implies item_valid(
                g,
                a as nat,
                #[trigger] rv[a][b],
            ) by {
                assert(rv[a] == p.scratch.row_view());
                assert(item_valid(g, 0, p.scratch.row_view()[b]));
            }
            assert(p.rows_wf_n(1));
            assert(p.stack_wf());
            assert(p.infos_wf());
            assert(p.wf());
            p.lemma_text_pending();
            assert(p.stack().drop_last() =~= Seq::<LexerState>::empty());
            assert(p.top().row_idx == 0);
            assert(crate::earley::parser::step::row_bytes(p.stack().drop_last(), 0) =~= Seq::<u8>::empty());
            assert(crate::earley::parser::step::row_bytes(p.stack(), 0) =~= crate::earley::parser::step::row_bytes(
                p.stack().drop_last(),
                0,
            ) + crate::earley::parser::step::opt_byte(p.stack().last().byte));
            assert(p.pending_bytes() =~= Seq::<u8>::empty());
            assert(p.text() =~= Seq::<u8>::empty());
        }
        Ok(p)
    }
}

} // verus!
