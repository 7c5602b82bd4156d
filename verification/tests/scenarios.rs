use std::sync::Arc;

use llguidance_ctrl::earley::grammar::{
    CGrammar, CSymIdx, CSymbol, GenGrammarOptions, GrammarId, ModelVariable, RuleIdx, SpecialToken,
    SymbolProps,
};
use llguidance_ctrl::earley::item::Item;
use llguidance_ctrl::earley::lexer::{Dfa, LimitEntry, StartEntry, StateDesc, StateID};
use llguidance_ctrl::earley::lexerspec::{LexemeIdx, LexemeSet, LexemeSpec, LexerSpec};
use llguidance_ctrl::earley::parser::tokens::{ApplyError, MAX_ROW};
use llguidance_ctrl::earley::parser::{Parser, ParserError, ParserStats};

/// Tables of a lazy lexer whose lexeme classes are the given byte strings.
/// Class 0 is the skip class. There is one start state for every set of
/// classes.
fn literal_lexer(literals: &[&[u8]]) -> LexerSpec {
    hiding_lexer(literals, &vec![0; literals.len()])
}

/// As `literal_lexer`, with `hidden[i]` trailing bytes of class `i` being
/// lookahead only.
fn hiding_lexer(literals: &[&[u8]], hidden: &[usize]) -> LexerSpec {
    let n = literals.len();
    let dead = StateDesc {
        next: vec![StateID(0); 256],
        possible: LexemeSet { bits: vec![false; n] },
        accepting: None,
        accepting_hidden_len: 0,
        possible_hidden_len: 0,
        allows_eos: false,
        forced_end: false,
    };
    let mut states = vec![dead];
    let mut starts = Vec::new();
    for mask in 0u32..(1u32 << n) {
        let allowed: Vec<bool> = (0..n).map(|i| mask & (1 << i) != 0).collect();
        let mut prefixes: Vec<Vec<u8>> = vec![Vec::new()];
        for (i, lit) in literals.iter().enumerate() {
            if allowed[i] {
                for k in 1..=lit.len() {
                    let p = lit[..k].to_vec();
                    if !prefixes.contains(&p) {
                        prefixes.push(p);
                    }
                }
            }
        }
        let base = states.len();
        for p in prefixes.iter() {
            let mut next = vec![StateID(0); 256];
            let mut has_child = false;
            for b in 0..256usize {
                let mut q = p.clone();
                q.push(b as u8);
                if let Some(pos) = prefixes.iter().position(|x| *x == q) {
                    next[b] = StateID((base + pos) as u32);
                    has_child = true;
                }
            }
            let possible: Vec<bool> =
                (0..n).map(|i| allowed[i] && literals[i].starts_with(p)).collect();
            let accepting = if p.is_empty() {
                None
            } else {
                (0..n).find(|&i| allowed[i] && literals[i] == &p[..]).map(LexemeIdx)
            };
            let hide = accepting.map(|l| hidden[l.0]).unwrap_or(0);
            let may_hide =
                (0..n).filter(|&i| allowed[i] && literals[i].starts_with(p)).map(|i| hidden[i]).max();
            states.push(StateDesc {
                next,
                possible: LexemeSet { bits: possible },
                accepting,
                accepting_hidden_len: hide,
                possible_hidden_len: may_hide.unwrap_or(0),
                allows_eos: false,
                forced_end: !has_child,
            });
        }
        starts.push(StartEntry { allowed: LexemeSet { bits: allowed }, state: StateID(base as u32) });
    }
    LexerSpec {
        greedy: false,
        lexemes: literals
            .iter()
            .map(|l| LexemeSpec { name: String::from_utf8_lossy(l).to_string(), literal: Some(l.to_vec()) })
            .collect(),
        dfa: Arc::new(Dfa { states, starts, limits: Vec::new() }),
    }
}

fn terminal(g: &mut CGrammar, name: &str, lexeme: usize) -> CSymIdx {
    g.add_symbol(CSymbol::new(name.to_string(), Some(LexemeIdx(lexeme)), false, SymbolProps::plain(), None))
        .unwrap()
}

fn nonterminal(g: &mut CGrammar, name: &str, props: SymbolProps) -> CSymIdx {
    g.add_symbol(CSymbol::new(name.to_string(), None, false, props, None)).unwrap()
}

/// `S -> lit` for each of the literals.
fn alternatives(lits: &[&[u8]]) -> Parser {
    let mut all: Vec<&[u8]> = vec![b" "];
    all.extend_from_slice(lits);
    let mut g = CGrammar::new(literal_lexer(&all));
    let s = nonterminal(&mut g, "S", SymbolProps::plain());
    for i in 0..lits.len() {
        let t = terminal(&mut g, "t", i + 1);
        assert!(g.add_rule(s, &vec![t]).is_some());
    }
    assert!(g.set_start(s));
    Parser::new(Arc::new(g)).unwrap()
}

fn feed(p: &mut Parser, bytes: &[u8]) -> bool {
    for b in bytes {
        if !p.try_push_byte_definitive(Some(*b)) {
            return false;
        }
    }
    true
}

#[test]
fn minimal_accept() {
    let mut p = alternatives(&[b"a"]);
    assert_eq!(p.num_rows(), 1);
    assert!(!p.is_accepting());
    assert_eq!(p.forced_byte(), Some(0x61));
    assert!(p.try_push_byte_definitive(Some(0x61)));
    assert!(p.is_accepting());
    assert_eq!(p.num_rows(), 2);
    assert_eq!(p.forced_byte(), None);
}

#[test]
fn refuses_a_byte_that_cannot_follow() {
    let mut p = alternatives(&[b"a"]);
    assert!(!p.try_push_byte_definitive(Some(0x62)));
    assert_eq!(p.num_rows(), 1);
    assert!(p.is_committed());
}

#[test]
fn forced_sequence() {
    let mut p = alternatives(&[b"hello"]);
    assert_eq!(p.force_bytes(), vec![0x68, 0x65, 0x6c, 0x6c, 0x6f]);
    assert!(p.is_accepting());
}

#[test]
fn ambiguous_next_byte() {
    let mut p = alternatives(&[b"ab", b"ac"]);
    assert!(feed(&mut p, b"a"));
    assert_eq!(p.forced_byte(), None);
    p.trie_started();
    assert!(p.try_push_byte(0x62));
    p.pop_bytes(1);
    assert!(p.try_push_byte(0x63));
    p.pop_bytes(1);
    assert!(!p.try_push_byte(0x64));
    p.trie_finished();
    assert!(p.is_committed());
}

#[test]
fn capture() {
    let mut g = CGrammar::new(literal_lexer(&[b" ", b"abc", b"!"]));
    let s = nonterminal(&mut g, "S", SymbolProps::plain());
    let mut props = SymbolProps::plain();
    props.capture_name = Some("name".to_string());
    let n = nonterminal(&mut g, "N", props);
    let abc = terminal(&mut g, "abc", 1);
    let bang = terminal(&mut g, "bang", 2);
    assert!(g.add_rule(n, &vec![abc]).is_some());
    assert!(g.add_rule(s, &vec![n, bang]).is_some());
    assert!(g.set_start(s));
    let mut p = Parser::new(Arc::new(g)).unwrap();
    assert!(feed(&mut p, b"abc!"));
    assert_eq!(p.captures().to_vec(), vec![("name".to_string(), b"abc".to_vec())]);
    assert!(p.is_accepting());
}

#[test]
fn speculative_rollback() {
    let mut p = alternatives(&[b"a"]);
    let rows = p.num_rows();
    let top = p.lexer_state();
    p.trie_started();
    assert!(p.try_push_byte(0x61));
    assert_eq!(p.num_rows(), rows + 1);
    p.trie_finished();
    assert_eq!(p.num_rows(), rows);
    assert_eq!(p.lexer_state().lexer_state, top.lexer_state);
    assert_eq!(p.lexer_state().row_idx, top.row_idx);
    assert_eq!(p.captures().len(), 0);
}

fn rows_of(p: &Parser) -> Vec<Vec<Item>> {
    (0..p.num_rows()).map(|i| p.items_of_row(i)).collect()
}

#[test]
fn get_bytes_reports_lexemes_and_pending_bytes() {
    let mut p = alternatives(&[b"hello"]);
    assert_eq!(p.get_bytes(), Vec::<u8>::new());
    assert!(feed(&mut p, b"he"));
    assert_eq!(p.get_bytes(), b"he".to_vec());
    assert!(p.has_pending_lexeme_bytes());
    assert!(feed(&mut p, b"llo"));
    assert_eq!(p.get_bytes(), b"hello".to_vec());
    assert!(!p.has_pending_lexeme_bytes());
    assert_eq!(p.row_info(0).unwrap().start_byte_idx, 0);
    assert_eq!(p.row_info(1).unwrap().start_byte_idx, 5);
}

#[test]
fn minimal_accept_reports_its_byte() {
    let mut p = alternatives(&[b"a"]);
    assert!(feed(&mut p, b"a"));
    assert_eq!(p.get_bytes(), vec![0x61]);
}

#[test]
fn first_row_is_closed_over_the_start_rules() {
    let p = alternatives(&[b"ab", b"ac"]);
    // symbols: 0 null, 1 S, 2 t("ab"), 3 t("ac"); rule positions: 0,1 and 2,3
    assert_eq!(p.items_of_row(0), vec![Item::new(RuleIdx(0), 0), Item::new(RuleIdx(2), 0)]);
    let allowed = p.allowed_lexemes_of_row(0).unwrap();
    assert_eq!(allowed.bits, vec![false, true, true]);
    assert_eq!(p.stats().rows, 1);
    assert_eq!(p.stats().all_items, 2);
    assert!(p.is_committed());
    assert!(p.is_definitive());
}

#[test]
fn push_then_pop_restores_the_top_of_the_stack() {
    let mut p = alternatives(&[b"ab", b"ac"]);
    p.trie_started();
    let before = p.lexer_state();
    let rows = p.num_rows();
    assert!(p.try_push_byte(0x61));
    p.pop_bytes(1);
    assert_eq!(p.num_rows(), rows);
    assert_eq!(p.lexer_state().row_idx, before.row_idx);
    assert_eq!(p.lexer_state().lexer_state, before.lexer_state);
    assert_eq!(p.lexer_state().byte, before.byte);
    p.trie_finished();
}

#[test]
fn speculation_then_commit_is_commit() {
    let mut direct = alternatives(&[b"ab", b"ac"]);
    let mut after = alternatives(&[b"ab", b"ac"]);
    after.trie_started();
    for b in 0..=255u8 {
        if after.try_push_byte(b) {
            for c in 0..=255u8 {
                if after.try_push_byte(c) {
                    after.pop_bytes(1);
                }
            }
            after.pop_bytes(1);
        }
    }
    after.trie_finished();
    assert!(direct.try_push_byte_definitive(Some(0x61)));
    assert!(after.try_push_byte_definitive(Some(0x61)));
    assert!(direct.try_push_byte_definitive(Some(0x63)));
    assert!(after.try_push_byte_definitive(Some(0x63)));
    assert_eq!(direct.num_rows(), after.num_rows());
    assert_eq!(direct.lexer_state().lexer_state, after.lexer_state().lexer_state);
    assert_eq!(rows_of(&direct), rows_of(&after));
    assert_eq!(direct.get_bytes(), after.get_bytes());
    assert_eq!(direct.is_accepting(), after.is_accepting());
}

#[test]
fn speculation_leaves_row_infos_and_captures_alone() {
    let mut g = CGrammar::new(literal_lexer(&[b" ", b"a"]));
    let s = nonterminal(&mut g, "S", SymbolProps::plain());
    let mut props = SymbolProps::plain();
    props.capture_name = Some("n".to_string());
    let n = nonterminal(&mut g, "N", props);
    let a = terminal(&mut g, "a", 1);
    assert!(g.add_rule(n, &vec![a]).is_some());
    assert!(g.add_rule(s, &vec![n]).is_some());
    assert!(g.set_start(s));
    let mut p = Parser::new(Arc::new(g)).unwrap();
    p.trie_started();
    assert!(p.try_push_byte(0x61));
    assert_eq!(p.captures().len(), 0);
    assert!(p.row_info(1).is_none());
    p.trie_finished();
    assert_eq!(p.captures().len(), 0);
    assert!(p.try_push_byte_definitive(Some(0x61)));
    assert_eq!(p.captures().to_vec(), vec![("n".to_string(), b"a".to_vec())]);
    assert!(p.row_info(1).is_some());
}

#[test]
fn skip_lexeme_copies_the_row() {
    let mut g = CGrammar::new(literal_lexer(&[b" ", b"a", b"b"]));
    let s = nonterminal(&mut g, "S", SymbolProps::plain());
    let a = terminal(&mut g, "a", 1);
    let b = terminal(&mut g, "b", 2);
    assert!(g.add_rule(s, &vec![a, b]).is_some());
    assert!(g.set_start(s));
    let mut p = Parser::new(Arc::new(g)).unwrap();
    // the first row does not allow the skip class
    assert!(!p.try_push_byte_definitive(Some(b' ')));
    let mut p = {
        let mut g = CGrammar::new(literal_lexer(&[b" ", b"a", b"b"]));
        let s = nonterminal(&mut g, "S", SymbolProps::plain());
        let a = terminal(&mut g, "a", 1);
        let b = terminal(&mut g, "b", 2);
        assert!(g.add_rule(s, &vec![a, b]).is_some());
        assert!(g.set_start(s));
        Parser::new(Arc::new(g)).unwrap()
    };
    assert!(feed(&mut p, b"a"));
    let row1 = p.items_of_row(1);
    assert!(feed(&mut p, b" "));
    assert_eq!(p.num_rows(), 3);
    assert_eq!(p.items_of_row(2), row1);
    assert_eq!(
        p.allowed_lexemes_of_row(2).unwrap().bits,
        p.allowed_lexemes_of_row(1).unwrap().bits
    );
    assert!(feed(&mut p, b"b"));
    assert!(p.is_accepting());
    assert_eq!(p.get_bytes(), b"a b".to_vec());
}

fn budget_parser() -> Parser {
    // S -> N ; N -> t N | t, with a budget of two tokens for N
    let mut g = CGrammar::new(literal_lexer(&[b" ", b"x"]));
    let s = nonterminal(&mut g, "S", SymbolProps::plain());
    let mut props = SymbolProps::plain();
    props.max_tokens = 2;
    let n = nonterminal(&mut g, "N", props);
    let t = terminal(&mut g, "t", 1);
    assert!(g.add_rule(s, &vec![n]).is_some());
    assert!(g.add_rule(n, &vec![t, n]).is_some());
    assert!(g.add_rule(n, &vec![t]).is_some());
    assert!(g.set_start(s));
    Parser::new(Arc::new(g)).unwrap()
}

#[test]
fn max_tokens() {
    let mut p = budget_parser();
    let tokens = vec![b"x".to_vec(), b"x".to_vec(), b"x".to_vec()];
    assert_eq!(p.apply_tokens(&tokens, 0), Ok(""));
    assert_eq!(p.token_idx(), 3);
    assert!(p.token_windows_ok());
    let before = rows_of(&p);
    // rule positions: 0,1 are "S -> N"; 2,3,4 are "N -> t N"; 5,6 are "N -> t"
    let lhs = |it: &Item| if it.rule_idx().0 <= 1 { CSymIdx(1) } else { CSymIdx(2) };
    for it in before.iter().flatten() {
        assert_eq!(p.grammar().sym_idx_lhs(it.rule_idx()), lhs(it));
    }
    let n_sym = CSymIdx(2);
    // every row holds an item of N
    for row in before.iter() {
        assert!(row.iter().any(|it| lhs(it) == n_sym));
    }
    let starts: Vec<usize> = (0..4).map(|i| p.row_info(i).unwrap().token_idx_start).collect();
    assert_eq!(starts, vec![0, 0, 1, 2]);
    let keeps = |it: &Item| {
        if lhs(it) != n_sym {
            return true;
        }
        let row = it.start_pos() + 1;
        let start = if row < 4 { starts[row] } else { 3 };
        3 - start < 2
    };
    let expected: Vec<Vec<Item>> =
        before.iter().map(|row| row.iter().copied().filter(|it| keeps(it)).collect()).collect();
    p.filter_max_tokens();
    let after = rows_of(&p);
    assert_eq!(after, expected);
    // what began before the last two tokens is gone
    for row in after.iter() {
        for it in row.iter() {
            if lhs(it) == n_sym {
                assert!(it.start_pos() >= 2);
            }
        }
    }
    assert!(after.iter().flatten().count() < before.iter().flatten().count());
    assert!(p.is_committed());
}

#[test]
fn filter_keeps_everything_without_budgets() {
    let mut p = alternatives(&[b"ab", b"ac"]);
    assert_eq!(p.apply_tokens(&vec![b"a".to_vec()], 0), Ok(""));
    let before = rows_of(&p);
    p.filter_max_tokens();
    assert_eq!(rows_of(&p), before);
}

#[test]
fn apply_tokens_verdicts() {
    let mut p = alternatives(&[b"hello"]);
    assert_eq!(p.apply_tokens(&vec![b"he".to_vec()], 0), Ok(""));
    assert_eq!(p.get_bytes(), b"he".to_vec());
    // the same tokens again are already read
    let rows = rows_of(&p);
    let top = p.lexer_state();
    assert_eq!(p.apply_tokens(&vec![b"he".to_vec()], 0), Ok(""));
    assert_eq!(rows_of(&p), rows);
    assert_eq!(p.lexer_state().lexer_state, top.lexer_state);
    assert_eq!(p.get_bytes(), b"he".to_vec());
    // a byte that differs from what was read
    assert_eq!(p.apply_tokens(&vec![b"hx".to_vec()], 0), Ok("static reject"));
    assert_eq!(rows_of(&p), rows);
    // more bytes are fed
    assert_eq!(p.apply_tokens(&vec![b"he".to_vec(), b"ll".to_vec()], 0), Ok(""));
    assert_eq!(p.get_bytes(), b"hell".to_vec());
    assert_eq!(p.token_idx(), 2);
    // a byte that cannot follow
    assert_eq!(p.apply_tokens(&vec![b"hell".to_vec(), b"x".to_vec()], 0), Ok("parse reject"));
}

#[test]
fn apply_tokens_skips_bytes() {
    let mut p = alternatives(&[b"hello"]);
    assert_eq!(p.apply_tokens(&vec![b"xxh".to_vec(), b"e".to_vec()], 2), Ok(""));
    assert_eq!(p.get_bytes(), b"he".to_vec());
    let mut p = alternatives(&[b"hello"]);
    assert_eq!(p.apply_tokens(&vec![b"xx".to_vec()], 5), Ok(""));
    assert_eq!(p.get_bytes(), Vec::<u8>::new());
}

#[test]
fn apply_tokens_notes_token_windows() {
    let mut p = alternatives(&[b"ab"]);
    assert_eq!(p.apply_tokens(&vec![b"a".to_vec(), b"b".to_vec()], 0), Ok(""));
    let info0 = p.row_info(0).unwrap();
    assert_eq!((info0.token_idx_start, info0.token_idx_stop), (0, 1));
    let info1 = p.row_info(1).unwrap();
    assert_eq!((info1.token_idx_start, info1.token_idx_stop), (1, 2));
    assert_eq!(info0.lexeme.bytes, b"ab".to_vec());
    assert_eq!(info0.lexeme.idx, LexemeIdx(1));
}

#[test]
fn apply_tokens_refuses_long_rows() {
    let mut g = CGrammar::new(literal_lexer(&[b" ", b"a"]));
    let s = nonterminal(&mut g, "S", SymbolProps::plain());
    for _ in 0..(MAX_ROW + 1) {
        let t = terminal(&mut g, "t", 1);
        assert!(g.add_rule(s, &vec![t]).is_some());
    }
    assert!(g.set_start(s));
    let mut p = Parser::new(Arc::new(g)).unwrap();
    let r = p.apply_tokens(&vec![b"a".to_vec()], 0);
    assert_eq!(r, Err(ApplyError::RowTooLong { items: MAX_ROW + 1 }));
    assert!(r.unwrap_err().message().starts_with("Current row has too many items"));
}

fn budget_lexeme_parser(limits: Vec<LimitEntry>) -> Parser {
    // one terminal "xyz" with a budget of one token
    let mut spec = literal_lexer(&[b" ", b"xyz"]);
    let dfa = Arc::get_mut(&mut spec.dfa).unwrap();
    dfa.limits = limits;
    let mut g = CGrammar::new(spec);
    let s = nonterminal(&mut g, "S", SymbolProps::plain());
    let mut props = SymbolProps::plain();
    props.max_tokens = 1;
    let t = g.add_symbol(CSymbol::new("t".to_string(), Some(LexemeIdx(1)), false, props, None)).unwrap();
    assert!(g.add_rule(s, &vec![t]).is_some());
    assert!(g.set_start(s));
    Parser::new(Arc::new(g)).unwrap()
}

#[test]
fn lexeme_budget_forces_the_end_of_the_lexeme() {
    // no entry in the limit table: limiting leaves the dead state, and the
    // lexeme has to end after its first token
    let mut p = budget_lexeme_parser(Vec::new());
    assert_eq!(p.row_info(0).unwrap().max_tokens, vec![(LexemeIdx(1), 1)]);
    assert_eq!(p.row_info(0).unwrap().max_tokens_for(LexemeIdx(1)), 1);
    assert_eq!(p.row_info(0).unwrap().max_tokens_for(LexemeIdx(0)), usize::MAX);
    assert_eq!(p.apply_tokens(&vec![b"x".to_vec()], 0), Ok(""));
    assert_eq!(p.num_rows(), 2);
    assert_eq!(p.row_info(0).unwrap().lexeme.bytes, b"x".to_vec());
    assert!(p.is_accepting());
}

#[test]
fn lexeme_budget_limits_the_lexer_state() {
    let probe = budget_lexeme_parser(Vec::new());
    let start = probe.lexer_state().lexer_state;
    let after_x = probe.lexer().advance(start, b'x', false);
    let from = match after_x {
        llguidance_ctrl::earley::lexer::LexerResult::State(s, _) => s,
        _ => panic!("expected a state"),
    };
    // limiting to no class at all leads to the start state again
    let limit =
        LimitEntry { from, allowed: LexemeSet { bits: vec![false, false] }, to: start };
    let mut p = budget_lexeme_parser(vec![limit]);
    assert_eq!(p.apply_tokens(&vec![b"x".to_vec()], 0), Ok(""));
    assert_eq!(p.lexer_state().lexer_state, start);
    assert_eq!(p.lexer_state().byte, Some(b'x'));
}

#[test]
fn hidden_bytes_are_fed_again_when_forced() {
    // class 1 is "ab" with the "b" as lookahead; classes 0 and 2 begin with "b"
    let spec = hiding_lexer(&[b"bb", b"ab", b"bc"], &[0, 1, 0]);
    let mut g = CGrammar::new(spec);
    let s = nonterminal(&mut g, "S", SymbolProps::plain());
    let l1 = terminal(&mut g, "l1", 1);
    let l2 = terminal(&mut g, "l2", 2);
    assert!(g.add_rule(s, &vec![l1, l2]).is_some());
    assert!(g.set_start(s));
    let mut p = Parser::new(Arc::new(g)).unwrap();
    assert!(feed(&mut p, b"a"));
    // one byte is pending, and one byte may be hidden
    assert_eq!(p.hidden_start(), 0);
    assert!(feed(&mut p, b"b"));
    // the lexeme ended, and its hidden byte was fed to the next row
    assert_eq!(p.num_rows(), 2);
    assert_eq!(p.lexer_state().byte, Some(b'b'));
    assert_eq!(p.lexer_state().row_idx, 1);
    assert_eq!(p.stats().hidden_bytes, 1);
    let lexeme = &p.row_info(0).unwrap().lexeme;
    assert_eq!(lexeme.visible_bytes(), b"a".to_vec());
    assert_eq!(lexeme.hidden_bytes(), b"b".to_vec());
    assert!(feed(&mut p, b"c"));
    assert!(p.is_accepting());
    assert_eq!(p.get_bytes(), b"abc".to_vec());
}

#[test]
fn hidden_bytes_that_are_not_forced_restart_the_lexer() {
    // the skip class " " does not begin with the hidden "b"
    let spec = hiding_lexer(&[b" ", b"ab", b"bc"], &[0, 1, 0]);
    let mut g = CGrammar::new(spec);
    let s = nonterminal(&mut g, "S", SymbolProps::plain());
    let l1 = terminal(&mut g, "l1", 1);
    let l2 = terminal(&mut g, "l2", 2);
    assert!(g.add_rule(s, &vec![l1, l2]).is_some());
    assert!(g.set_start(s));
    let grammar = Arc::new(g);
    let mut p = Parser::new(grammar.clone()).unwrap();
    assert!(feed(&mut p, b"ab"));
    assert_eq!(p.lexer_state().byte, None);
    assert_eq!(p.stats().hidden_bytes, 0);
    assert!(feed(&mut p, b"bc"));
    assert!(p.is_accepting());
    // during speculation the branch is closed
    let mut p = Parser::new(grammar).unwrap();
    assert!(feed(&mut p, b"a"));
    p.trie_started();
    assert!(p.try_push_byte(b'b'));
    assert!(p.lexer_state().lexer_state.is_dead());
    assert!(!p.try_push_byte(b'b'));
    p.trie_finished();
    assert_eq!(p.num_rows(), 1);
}

/// A greedy lexer: class 1 is one or more "a", class 2 is "b".
fn greedy_spec() -> LexerSpec {
    let set = |bits: &[bool]| LexemeSet { bits: bits.to_vec() };
    let state = |next: Vec<(u8, u32)>, possible: &[bool], accepting: Option<usize>, end: bool| {
        let mut table = vec![StateID(0); 256];
        for (b, to) in next {
            table[b as usize] = StateID(to);
        }
        StateDesc {
            next: table,
            possible: set(possible),
            accepting: accepting.map(LexemeIdx),
            accepting_hidden_len: 0,
            possible_hidden_len: 0,
            allows_eos: accepting.is_some(),
            forced_end: end,
        }
    };
    let states = vec![
        state(vec![], &[false, false, false], None, false),
        // 1: start for {a+}
        state(vec![(b'a', 2)], &[false, true, false], None, false),
        // 2: inside a+
        state(vec![(b'a', 2)], &[false, true, false], Some(1), false),
        // 3: start for {skip, b}
        state(vec![(b'b', 4)], &[false, false, true], None, false),
        // 4: after b
        state(vec![], &[false, false, true], Some(2), true),
        // 5: start for {skip}
        state(vec![], &[false, false, false], None, false),
    ];
    let starts = vec![
        StartEntry { allowed: set(&[false, true, false]), state: StateID(1) },
        StartEntry { allowed: set(&[true, false, true]), state: StateID(3) },
        StartEntry { allowed: set(&[true, false, false]), state: StateID(5) },
    ];
    LexerSpec {
        greedy: true,
        lexemes: vec![
            LexemeSpec { name: "skip".to_string(), literal: None },
            LexemeSpec { name: "a+".to_string(), literal: None },
            LexemeSpec { name: "b".to_string(), literal: Some(b"b".to_vec()) },
        ],
        dfa: Arc::new(Dfa { states, starts, limits: Vec::new() }),
    }
}

fn greedy_parser() -> Parser {
    let mut g = CGrammar::new(greedy_spec());
    let s = nonterminal(&mut g, "S", SymbolProps::plain());
    let a = terminal(&mut g, "a", 1);
    let b = terminal(&mut g, "b", 2);
    assert!(g.add_rule(s, &vec![a, b]).is_some());
    assert!(g.set_start(s));
    Parser::new(Arc::new(g)).unwrap()
}

#[test]
fn greedy_lexeme_ends_at_the_byte_after_it() {
    let mut p = greedy_parser();
    assert!(feed(&mut p, b"aa"));
    assert_eq!(p.num_rows(), 1);
    assert!(p.lexer_allows_eos());
    // "b" ends the run of "a" and is a lexeme by itself
    assert!(feed(&mut p, b"b"));
    assert_eq!(p.num_rows(), 3);
    assert_eq!(p.lexer_state().byte, None);
    assert!(p.is_accepting());
    assert_eq!(p.get_bytes(), b"aab".to_vec());
    assert!(p.is_committed());
}

#[test]
fn greedy_lexeme_cannot_end_at_a_byte_that_leads_nowhere() {
    let mut p = greedy_parser();
    assert!(feed(&mut p, b"a"));
    // "c" ends the run of "a", but nothing begins with it
    assert!(!p.try_push_byte_definitive(Some(b'c')));
    assert_eq!(p.num_rows(), 1);
    // the row that was made for it has its row info all the same
    assert!(!p.is_committed());
    assert!(p.row_info(1).is_some());
}

#[test]
fn end_of_input_forces_the_lexeme_to_end() {
    let mut p = greedy_parser();
    assert!(feed(&mut p, b"aa"));
    assert!(p.try_push_byte_definitive(None));
    assert_eq!(p.num_rows(), 2);
    assert_eq!(p.row_info(0).unwrap().lexeme.bytes, b"aa".to_vec());
}

#[test]
fn can_advance_looks_for_terminals() {
    let mut p = alternatives(&[b"ab"]);
    assert!(p.can_advance());
    assert!(feed(&mut p, b"a"));
    assert!(p.can_advance());
    assert!(feed(&mut p, b"b"));
    assert!(!p.can_advance());
}

fn variable_parser() -> Parser {
    // S -> a V W ; V and W stand for model variables
    let mut g = CGrammar::new(literal_lexer(&[b" ", b"a"]));
    let s = nonterminal(&mut g, "S", SymbolProps::plain());
    let a = terminal(&mut g, "a", 1);
    let mut props = SymbolProps::plain();
    props.model_variable = Some(ModelVariable::Other("v".to_string()));
    let v = nonterminal(&mut g, "V", props);
    let mut props = SymbolProps::plain();
    props.model_variable = Some(ModelVariable::SpecialToken(SpecialToken::EndOfSentence));
    let w = nonterminal(&mut g, "W", props);
    assert!(g.add_rule(s, &vec![a, v, w]).is_some());
    assert!(g.add_rule(s, &vec![a, v]).is_some());
    assert!(g.set_start(s));
    Parser::new(Arc::new(g)).unwrap()
}

#[test]
fn model_variables_are_listed_once() {
    let mut p = variable_parser();
    assert!(p.model_variables().is_empty());
    assert!(feed(&mut p, b"a"));
    let vars = p.model_variables();
    assert_eq!(vars.len(), 1);
    assert!(vars[0].same(&ModelVariable::Other("v".to_string())));
    assert!(p.is_committed());
}

#[test]
fn scan_model_variable_makes_a_row() {
    let mut p = variable_parser();
    assert!(feed(&mut p, b"a"));
    assert!(!p.scan_model_variable(ModelVariable::ActiveRoleEnd));
    assert!(p.is_committed());
    assert!(p.scan_model_variable(ModelVariable::Other("v".to_string())));
    // the new row is made, but no frame of the lexer stack makes it live
    assert_eq!(p.num_rows(), 2);
    assert!(p.row_info(2).is_some());
    assert!(!p.is_committed());
}

fn nested_parser() -> (Parser, CSymIdx, CSymIdx) {
    // S -> G1 a | G2 a ; G1 and G2 stand for nested grammars
    let mut g = CGrammar::new(literal_lexer(&[b" ", b"a"]));
    let s = nonterminal(&mut g, "S", SymbolProps::plain());
    let g1 = g
        .add_symbol(CSymbol::new(
            "G1".to_string(),
            None,
            false,
            SymbolProps::plain(),
            Some(GenGrammarOptions { grammar: GrammarId(7), max_tokens_grm: 10 }),
        ))
        .unwrap();
    let g2 = g
        .add_symbol(CSymbol::new(
            "G2".to_string(),
            None,
            false,
            SymbolProps::plain(),
            Some(GenGrammarOptions { grammar: GrammarId(3), max_tokens_grm: 20 }),
        ))
        .unwrap();
    let a = terminal(&mut g, "a", 1);
    assert!(g.add_rule(s, &vec![g1, a]).is_some());
    assert!(g.add_rule(s, &vec![g2, a]).is_some());
    assert!(g.set_start(s));
    (Parser::new(Arc::new(g)).unwrap(), g1, g2)
}

#[test]
fn maybe_gen_grammar_prefers_the_lowest_grammar() {
    let (p, g1, g2) = nested_parser();
    let (rivals, idx, options) = p.maybe_gen_grammar().unwrap();
    assert_eq!(idx, g2);
    assert_eq!(options.grammar, GrammarId(3));
    assert_eq!(options.max_tokens_grm, 20);
    assert_eq!(rivals, vec![g1, g2]);
    let plain = alternatives(&[b"a"]);
    assert!(plain.maybe_gen_grammar().is_none());
}

#[test]
fn scan_gen_grammar_records_the_output() {
    let (mut p, _g1, g2) = nested_parser();
    assert!(p.can_advance());
    assert!(!p.scan_gen_grammar(CSymIdx(0), b"zz".to_vec()));
    assert!(p.scan_gen_grammar(g2, b"out".to_vec()));
    assert_eq!(p.num_rows(), 2);
    assert!(p.is_committed());
    assert_eq!(p.get_bytes(), b"out".to_vec());
    assert_eq!(p.row_info(0).unwrap().lexeme.idx, LexemeIdx(0));
    assert!(feed(&mut p, b"a"));
    assert!(p.is_accepting());
    assert_eq!(p.get_bytes(), b"outa".to_vec());
}

#[test]
fn a_noted_nested_grammar_runs_when_speculation_begins() {
    let (mut p, g1, _g2) = nested_parser();
    p.set_trie_gen_grammar(g1);
    p.trie_started();
    assert_eq!(p.num_rows(), 2);
    assert!(!p.trie_gen_grammar_accepting());
    assert!(p.try_push_byte(b'a'));
    p.trie_finished();
    assert_eq!(p.num_rows(), 1);
    assert!(p.is_committed());
}

#[test]
fn finish_bias_allows_end_of_sentence_at_the_end_of_a_lexeme() {
    let mut p = greedy_parser();
    assert!(!p.finish_bias(false, true));
    assert!(feed(&mut p, b"a"));
    assert!(p.finish_bias(false, true));
    assert!(!p.finish_bias(false, false));
    assert_eq!(p.num_rows(), 1);
    // nothing allowed: the lexer is flushed
    assert!(!p.finish_bias(true, true));
    assert_eq!(p.num_rows(), 2);
}

#[test]
fn collapse_notes_the_number_of_rows() {
    let mut p = alternatives(&[b"a"]);
    assert_eq!(p.last_collapse(), 0);
    assert!(feed(&mut p, b"a"));
    p.collapse();
    assert_eq!(p.last_collapse(), 2);
}

#[test]
fn hidden_start_is_unknown_without_hidden_bytes() {
    let mut p = alternatives(&[b"ab"]);
    assert_eq!(p.hidden_start(), usize::MAX);
    assert!(feed(&mut p, b"a"));
    assert_eq!(p.hidden_start(), usize::MAX);
}

#[test]
fn a_grammar_without_start_rules_makes_no_parser() {
    let mut g = CGrammar::new(literal_lexer(&[b" ", b"a"]));
    let s = nonterminal(&mut g, "S", SymbolProps::plain());
    assert!(g.set_start(s));
    let e = Parser::new(Arc::new(g)).err().unwrap();
    assert_eq!(e, ParserError::InitialPushFailed);
    assert_eq!(e.message(), "Internal error: initial push failed");
}

#[test]
fn a_lexer_with_bad_tables_makes_no_parser() {
    let mut spec = literal_lexer(&[b" ", b"a"]);
    Arc::get_mut(&mut spec.dfa).unwrap().states[1].next[0] = StateID(10_000);
    let mut g = CGrammar::new(spec);
    let s = nonterminal(&mut g, "S", SymbolProps::plain());
    let t = terminal(&mut g, "t", 1);
    assert!(g.add_rule(s, &vec![t]).is_some());
    assert!(g.set_start(s));
    let e = Parser::new(Arc::new(g)).err().unwrap();
    assert_eq!(e, ParserError::Lexer(llguidance_ctrl::earley::lexer::LexerError::InvalidTables));
}

#[test]
fn stats_count_bytes_and_rows() {
    let mut p = alternatives(&[b"ab"]);
    let before = p.stats();
    assert!(feed(&mut p, b"ab"));
    p.trie_started();
    assert!(!p.try_push_byte(b'x'));
    p.trie_finished();
    let d = p.stats().delta(&before);
    assert_eq!(d.definitive_bytes, 2);
    assert_eq!(d.lexer_ops, 1);
    assert_eq!(d.rows, 1);
    assert_eq!(d.all_items, 1);
    assert_eq!(d.hidden_bytes, 0);
}

#[test]
fn nullable_symbols_are_skipped_and_captured() {
    // S -> E a ; E is nullable and captured
    let mut g = CGrammar::new(literal_lexer(&[b" ", b"a"]));
    let s = nonterminal(&mut g, "S", SymbolProps::plain());
    let mut props = SymbolProps::plain();
    props.capture_name = Some("e".to_string());
    let e = g.add_symbol(CSymbol::new("E".to_string(), None, true, props, None)).unwrap();
    let a = terminal(&mut g, "a", 1);
    assert!(g.add_rule(e, &vec![]).is_some());
    assert!(g.add_rule(s, &vec![e, a]).is_some());
    assert!(g.set_start(s));
    let mut p = Parser::new(Arc::new(g)).unwrap();
    // rule positions: 0 is "E ->" at its end; 1, 2, 3 are "S -> E a"
    assert_eq!(
        p.items_of_row(0),
        vec![Item::new(RuleIdx(1), 0), Item::new(RuleIdx(2), 0), Item::new(RuleIdx(0), 0)]
    );
    assert_eq!(p.captures()[0], ("e".to_string(), Vec::<u8>::new()));
    assert!(feed(&mut p, b"a"));
    assert!(p.is_accepting());
}

#[test]
fn left_recursion_completes_into_the_origin_row() {
    // S -> S a | a
    let mut g = CGrammar::new(literal_lexer(&[b" ", b"a"]));
    let s = nonterminal(&mut g, "S", SymbolProps::plain());
    let a = terminal(&mut g, "a", 1);
    assert!(g.add_rule(s, &vec![s, a]).is_some());
    assert!(g.add_rule(s, &vec![a]).is_some());
    assert!(g.set_start(s));
    let mut p = Parser::new(Arc::new(g)).unwrap();
    // positions: 0,1,2 are "S -> S a"; 3,4 are "S -> a"
    assert_eq!(p.items_of_row(0), vec![Item::new(RuleIdx(0), 0), Item::new(RuleIdx(3), 0)]);
    assert!(feed(&mut p, b"a"));
    assert_eq!(p.items_of_row(1), vec![Item::new(RuleIdx(4), 0), Item::new(RuleIdx(1), 0)]);
    assert!(p.is_accepting());
    assert!(feed(&mut p, b"a"));
    assert_eq!(p.items_of_row(2), vec![Item::new(RuleIdx(2), 0), Item::new(RuleIdx(1), 0)]);
    assert!(p.is_accepting());
    assert_eq!(p.forced_byte(), None);
}

/// Class 1 is "abc" with "bc" as lookahead; class 2 is "bcd".
fn two_hidden_parser() -> Parser {
    let spec = hiding_lexer(&[b"bcx", b"abc", b"bcd"], &[0, 2, 0]);
    let mut g = CGrammar::new(spec);
    let s = nonterminal(&mut g, "S", SymbolProps::plain());
    let l1 = terminal(&mut g, "l1", 1);
    let l2 = terminal(&mut g, "l2", 2);
    assert!(g.add_rule(s, &vec![l1, l2]).is_some());
    assert!(g.set_start(s));
    Parser::new(Arc::new(g)).unwrap()
}

#[test]
fn forced_hidden_bytes_are_fed_again_during_speculation_too() {
    let mut p = two_hidden_parser();
    assert!(feed(&mut p, b"ab"));
    let depth = p.lexer_state();
    assert_eq!(depth.byte, Some(b'b'));
    p.trie_started();
    assert!(p.can_finish());
    // the lexeme ends; its two hidden bytes take the place of the frame of
    // "b", which is from before the speculation
    assert!(p.try_push_byte(b'c'));
    assert_eq!(p.num_rows(), 2);
    assert_eq!(p.lexer_state().byte, Some(b'c'));
    assert_eq!(p.lexer_state().row_idx, 1);
    assert!(!p.lexer_state().lexer_state.is_dead());
    // the walk goes on behind the lexeme
    assert!(p.try_push_byte(b'd'));
    assert!(!p.try_push_byte(b'd'));
    // what was committed is no longer all there
    assert!(!p.can_finish());
}

#[test]
fn forced_byte_tries_every_byte_from_the_same_state() {
    let mut p = two_hidden_parser();
    assert!(feed(&mut p, b"ab"));
    let top = p.lexer_state();
    assert_eq!(p.forced_byte(), Some(b'c'));
    assert!(p.is_committed());
    assert_eq!(p.lexer_state().lexer_state, top.lexer_state);
    assert_eq!(p.lexer_state().byte, top.byte);
    assert_eq!(p.num_rows(), 1);
    // behind "c" both "d" and the "x" of the skip class can follow
    assert_eq!(p.force_bytes(), b"c".to_vec());
    assert!(p.is_committed());
    assert_eq!(p.forced_byte(), None);
    assert!(feed(&mut p, b"d"));
    assert!(p.is_accepting());
    assert_eq!(p.get_bytes(), b"abcd".to_vec());
}

#[test]
fn bytes_from_before_a_speculation_can_be_taken_back() {
    let mut p = alternatives(&[b"abc"]);
    assert!(feed(&mut p, b"ab"));
    p.trie_started();
    assert!(p.can_pop(1));
    p.pop_bytes(1);
    assert_eq!(p.lexer_state().byte, Some(b'a'));
    // the speculation cannot end below the depth at which it began
    assert!(!p.can_finish());
    assert!(p.try_push_byte(b'b'));
    assert!(p.can_finish());
    p.trie_finished();
    assert!(p.is_committed());
    assert_eq!(p.get_bytes(), b"ab".to_vec());
}

#[test]
fn the_counters_can_be_set_back() {
    let mut p = alternatives(&[b"ab"]);
    assert!(feed(&mut p, b"a"));
    assert_eq!(p.stats().definitive_bytes, 1);
    let top = p.lexer_state();
    p.reset_stats();
    assert_eq!(p.stats(), ParserStats::new());
    assert_eq!(p.lexer_state().lexer_state, top.lexer_state);
    assert_eq!(p.lexer_state().byte, top.byte);
    assert!(feed(&mut p, b"b"));
    assert_eq!(p.stats().definitive_bytes, 1);
}

#[test]
fn a_copy_goes_its_own_way() {
    let mut p = alternatives(&[b"ab", b"ac"]);
    assert!(feed(&mut p, b"a"));
    let mut q = p.clone();
    assert!(q.is_committed());
    assert_eq!(q.num_rows(), p.num_rows());
    assert_eq!(q.get_bytes(), b"a".to_vec());
    assert_eq!(q.stats(), p.stats());
    assert!(feed(&mut p, b"b"));
    assert!(feed(&mut q, b"c"));
    assert_eq!(p.get_bytes(), b"ab".to_vec());
    assert_eq!(q.get_bytes(), b"ac".to_vec());
    assert!(p.is_accepting());
    assert!(q.is_accepting());
}

#[test]
fn every_byte_that_is_fed_for_good_is_added_to_the_text() {
    let mut p = alternatives(&[b"abc"]);
    assert_eq!(p.get_bytes(), Vec::<u8>::new());
    assert!(p.try_push_byte_definitive(Some(b'a')));
    assert_eq!(p.get_bytes(), b"a".to_vec());
    assert!(!p.try_push_byte_definitive(Some(b'x')));
    assert_eq!(p.get_bytes(), b"a".to_vec());
    assert!(p.try_push_byte_definitive(Some(b'b')));
    assert!(p.try_push_byte_definitive(Some(b'c')));
    assert_eq!(p.get_bytes(), b"abc".to_vec());
}

#[test]
fn apply_tokens_leaves_the_accepted_bytes_as_text() {
    let mut p = alternatives(&[b"abc"]);
    assert_eq!(p.apply_tokens(&vec![b"ab".to_vec(), b"x".to_vec()], 0), Ok("parse reject"));
    assert!(p.is_committed());
    assert_eq!(p.get_bytes(), b"ab".to_vec());
    let mut q = alternatives(&[b"abc"]);
    assert!(feed(&mut q, b"a"));
    assert_eq!(q.apply_tokens(&vec![b"ab".to_vec(), b"c".to_vec()], 0), Ok(""));
    assert_eq!(q.get_bytes(), b"abc".to_vec());
    assert_eq!(q.token_idx(), 2);
}

#[test]
fn a_lexeme_that_hides_more_than_it_has_is_told_apart() {
    // the tables claim that "a" hides two bytes
    let spec = hiding_lexer(&[b"x", b"a"], &[0, 2]);
    let mut g = CGrammar::new(spec);
    let s = nonterminal(&mut g, "S", SymbolProps::plain());
    let l1 = terminal(&mut g, "l1", 1);
    assert!(g.add_rule(s, &vec![l1]).is_some());
    assert!(g.set_start(s));
    let mut p = Parser::new(Arc::new(g)).unwrap();
    assert!(!p.lexeme_fits(Some(b'a')));
    assert!(p.lexeme_fits(Some(b'z')));
    assert!(!p.try_push_byte_definitive(Some(b'a')));
    let mut q = alternatives(&[b"ab"]);
    assert!(q.lexeme_fits(Some(b'a')));
    assert!(q.lexeme_fits(None));
}

#[test]
fn a_row_holds_its_items_in_the_order_in_which_they_are_found() {
    let mut g = CGrammar::new(literal_lexer(&[b" ", b"a", b"b"]));
    let s = nonterminal(&mut g, "S", SymbolProps::plain());
    let a = nonterminal(&mut g, "A", SymbolProps::plain());
    let b = nonterminal(&mut g, "B", SymbolProps::plain());
    let ta = terminal(&mut g, "ta", 1);
    let tb = terminal(&mut g, "tb", 2);
    let s1 = g.add_rule(s, &vec![a, tb]).unwrap();
    let s2 = g.add_rule(s, &vec![b]).unwrap();
    let b1 = g.add_rule(b, &vec![tb]).unwrap();
    let a1 = g.add_rule(a, &vec![ta]).unwrap();
    let a2 = g.add_rule(a, &vec![ta, ta]).unwrap();
    assert!(g.set_start(s));
    let mut p = Parser::new(Arc::new(g)).unwrap();
    // the rules of the start symbol, then what each item in turn predicts,
    // the rules of a symbol in the order in which they were added
    assert_eq!(
        p.items_of_row(0),
        vec![
            Item::new(s1, 0),
            Item::new(s2, 0),
            Item::new(a1, 0),
            Item::new(a2, 0),
            Item::new(b1, 0),
        ]
    );
    assert!(feed(&mut p, b"a"));
    // the scanned items with their dots moved on, in the order of the row
    // they come from; then the completed rule moves the dot of the item that
    // waited for it
    assert_eq!(
        p.items_of_row(1),
        vec![
            Item::new(a1, 0).advance_dot(),
            Item::new(a2, 0).advance_dot(),
            Item::new(s1, 0).advance_dot(),
        ]
    );
}

#[test]
fn hidden_bytes_that_the_lexer_refuses_are_told_apart() {
    // the tables know "zz", "ab" with "b" as lookahead, and "zc"; the lexeme
    // classes claim that the first and the last begin with "b"
    let mut spec = hiding_lexer(&[b"zz", b"ab", b"zc"], &[0, 1, 0]);
    spec.lexemes[0].literal = Some(b"bb".to_vec());
    spec.lexemes[2].literal = Some(b"bc".to_vec());
    let mut g = CGrammar::new(spec);
    let s = nonterminal(&mut g, "S", SymbolProps::plain());
    let l1 = terminal(&mut g, "l1", 1);
    let l2 = terminal(&mut g, "l2", 2);
    assert!(g.add_rule(s, &vec![l1, l2]).is_some());
    assert!(g.set_start(s));
    let mut p = Parser::new(Arc::new(g)).unwrap();
    assert_eq!(p.hidden_of(Some(b'a')), None);
    assert!(feed(&mut p, b"a"));
    assert_eq!(p.hidden_of(Some(b'x')), None);
    let hidden = p.hidden_of(Some(b'b')).unwrap();
    assert_eq!(hidden, b"b".to_vec());
    // during speculation the lexer does not take the "b" again and the
    // branch is closed
    let mut q = p.clone();
    q.trie_started();
    assert!(q.try_push_byte(b'b'));
    assert!(q.lexer_state().lexer_state.is_dead());
    assert!(q.refused_hidden(&hidden));
    // fed for good, the lexer stands at the start of the row
    assert!(feed(&mut p, b"b"));
    assert_eq!(p.lexer_state().byte, None);
    assert!(p.refused_hidden(&hidden));
    // with tables that hold what the classes say there is no fault
    let spec = hiding_lexer(&[b"bb", b"ab", b"bc"], &[0, 1, 0]);
    let mut g = CGrammar::new(spec);
    let s = nonterminal(&mut g, "S", SymbolProps::plain());
    let l1 = terminal(&mut g, "l1", 1);
    let l2 = terminal(&mut g, "l2", 2);
    assert!(g.add_rule(s, &vec![l1, l2]).is_some());
    assert!(g.set_start(s));
    let mut r = Parser::new(Arc::new(g)).unwrap();
    assert!(feed(&mut r, b"a"));
    let hidden = r.hidden_of(Some(b'b')).unwrap();
    assert!(feed(&mut r, b"b"));
    assert!(!r.refused_hidden(&hidden));
    // bytes that are not forced are no fault either
    let spec = hiding_lexer(&[b" ", b"ab", b"bc"], &[0, 1, 0]);
    let mut g = CGrammar::new(spec);
    let s = nonterminal(&mut g, "S", SymbolProps::plain());
    let l1 = terminal(&mut g, "l1", 1);
    let l2 = terminal(&mut g, "l2", 2);
    assert!(g.add_rule(s, &vec![l1, l2]).is_some());
    assert!(g.set_start(s));
    let mut t = Parser::new(Arc::new(g)).unwrap();
    assert!(feed(&mut t, b"a"));
    let hidden = t.hidden_of(Some(b'b')).unwrap();
    assert!(feed(&mut t, b"b"));
    assert!(!t.refused_hidden(&hidden));
}

#[test]
fn a_new_parser_has_one_row_and_one_frame() {
    let mut p = alternatives(&[b"ab"]);
    assert_eq!(p.num_rows(), 1);
    assert!(p.row_info(0).is_some());
    assert!(p.row_info(1).is_none());
    assert!(p.allowed_lexemes_of_row(1).is_none());
    assert_eq!(p.lexer_state().row_idx, 0);
    assert_eq!(p.lexer_state().byte, None);
    assert!(p.is_definitive());
    assert!(!p.can_pop(1));
    assert!(p.can_pop(0));
    assert_eq!(p.get_bytes(), Vec::<u8>::new());
}

/// `S -> "a" "b" "a"`, each byte a lexeme of its own.
fn three_lexemes() -> Parser {
    let mut g = CGrammar::new(literal_lexer(&[b" ", b"a", b"b"]));
    let s = nonterminal(&mut g, "S", SymbolProps::plain());
    let ta = terminal(&mut g, "ta", 1);
    let tb = terminal(&mut g, "tb", 2);
    assert!(g.add_rule(s, &vec![ta, tb, ta]).is_some());
    assert!(g.set_start(s));
    Parser::new(Arc::new(g)).unwrap()
}

#[test]
fn a_speculation_may_go_below_the_committed_rows() {
    let mut p = three_lexemes();
    assert!(feed(&mut p, b"ab"));
    assert_eq!(p.num_rows(), 3);
    let rows_before = rows_of(&p);
    p.trie_started();
    // two frames from before the speculation are taken back
    assert!(p.can_pop(2));
    p.pop_bytes(2);
    assert_eq!(p.num_rows(), 1);
    assert!(!p.can_pop(1));
    assert!(!p.can_finish());
    // what is fed now is written over the rows that were committed
    assert!(!p.try_push_byte(b'b'));
    assert!(p.try_push_byte(b'a'));
    assert!(!p.can_finish());
    assert!(p.try_push_byte(b'b'));
    assert!(p.can_finish());
    p.trie_finished();
    assert!(p.is_committed());
    assert_eq!(p.num_rows(), 3);
    assert_eq!(rows_of(&p), rows_before);
    assert_eq!(p.get_bytes(), b"ab".to_vec());
    assert!(feed(&mut p, b"a"));
    assert!(p.is_accepting());
}

#[test]
fn a_nested_grammar_needs_an_item_that_waits_for_it() {
    let p = alternatives(&[b"ab"]);
    // symbol 1 is the start symbol, 2 the terminal: nothing in row 0 waits
    // for either as for a nested grammar but the items before the terminal
    assert!(!p.waits_for_gen_grammar(CSymIdx::null()));
    assert!(!p.waits_for_gen_grammar(p.grammar().start()));
    let t = p.grammar().sym_idx_dot(p.items_of_row(0)[0].rule_idx());
    assert!(p.waits_for_gen_grammar(t));
}
