use std::sync::Arc;

use llguidance_ctrl::earley::grammar::{
    CGrammar, CSymIdx, CSymbol, ModelVariable, RuleIdx, SpecialToken, SymbolProps,
};
use llguidance_ctrl::earley::item::{Item, ItemProps, Row, Scratch};
use llguidance_ctrl::earley::lexer::{
    Dfa, Lexer, LexerError, LexerResult, LimitEntry, StartEntry, StateDesc, StateID,
};
use llguidance_ctrl::earley::lexerspec::{Lexeme, LexemeIdx, LexemeSet, LexemeSpec, LexerSpec};
use llguidance_ctrl::earley::parser::RowInfo;
use llguidance_ctrl::iface::{Args, M};

#[test]
fn item_packs_rule_and_origin() {
    let it = Item::new(RuleIdx(5), 3);
    assert_eq!(it.data, 5 | (3u64 << 32));
    assert_eq!(it.rule_idx(), RuleIdx(5));
    assert_eq!(it.start_pos(), 3);
    let next = it.advance_dot();
    assert_eq!(next.data, 6 | (3u64 << 32));
    assert_eq!(next.rule_idx(), RuleIdx(6));
    assert_eq!(next.start_pos(), 3);
    let far = Item::new(RuleIdx(u32::MAX), 0xffff_ffff);
    assert_eq!(far.rule_idx(), RuleIdx(u32::MAX));
    assert_eq!(far.start_pos(), 0xffff_ffff);
    assert_eq!(RuleIdx::from_index(9).as_index(), 9);
}

#[test]
fn item_props_merge_keeps_the_earlier_start() {
    let mut a = ItemProps::new();
    assert_eq!(a.hidden_start, usize::MAX);
    assert_eq!(ItemProps::default().hidden_start, usize::MAX);
    a.merge(ItemProps { hidden_start: 7 });
    assert_eq!(a.hidden_start, 7);
    a.merge(ItemProps { hidden_start: 9 });
    assert_eq!(a.hidden_start, 7);
    a.merge(ItemProps { hidden_start: 2 });
    assert_eq!(a.hidden_start, 2);
}

#[test]
fn scratch_adds_items_once() {
    let mut s = Scratch::new();
    assert_eq!(s.row_len(), 0);
    let a = Item::new(RuleIdx(1), 0);
    let b = Item::new(RuleIdx(2), 0);
    s.add_unique(a, 0);
    s.add_unique(b, 0);
    s.add_unique(a, 1);
    assert_eq!(s.row_len(), 2);
    assert_eq!(s.find_item(a), Some(0));
    assert_eq!(s.find_item(b), Some(1));
    assert_eq!(s.find_item(Item::new(RuleIdx(3), 0)), None);
    assert_eq!(s.item_at(1), b);
    s.just_add(a, 0);
    assert_eq!(s.row_len(), 3);
    s.set_hidden_start(b, 4);
    assert_eq!(s.item_props[1].hidden_start, 4);
    s.merge_item_origin(0, 1);
    assert_eq!(s.item_props[0].hidden_start, 4);
    let row = s.work_row(LexemeSet::new(2));
    assert_eq!((row.first_item, row.last_item), (0, 3));
    assert_eq!(row.item_indices(), 0..3);
    s.new_row(3);
    assert_eq!(s.row_len(), 0);
    s.ensure_items(100);
    assert_eq!(s.find_item(a), None);
    let copy: Row = row.copy();
    assert_eq!(copy.last_item, 3);
}

#[test]
fn lexeme_set_basics() {
    let mut s = LexemeSet::new(4);
    assert_eq!(s.len(), 4);
    assert!(s.is_zero());
    assert_eq!(s.first_bit_set(), None);
    s.set(2, true);
    s.set(3, true);
    assert!(!s.is_zero());
    assert!(s.get(2));
    assert!(!s.get(1));
    assert!(!s.get(100));
    assert_eq!(s.first_bit_set(), Some(2));
    let c = s.copy();
    assert!(c.same(&s));
    assert!(s.clone().same(&s));
    s.set(2, false);
    assert!(!c.same(&s));
    assert!(s.subset_of(&c));
    assert!(!c.subset_of(&s));
    assert!(!LexemeSet::new(3).same(&LexemeSet::new(4)));
}

#[test]
fn lexeme_visible_and_hidden_bytes() {
    let l = Lexeme::new(LexemeIdx(3), b"hello".to_vec(), 2);
    assert_eq!(l.visible_bytes(), b"hel".to_vec());
    assert_eq!(l.hidden_bytes(), b"lo".to_vec());
    assert_eq!(l.num_visible_bytes(), 3);
    assert_eq!(l.num_hidden_bytes(), 2);
    assert!(!l.is_bogus());
    let all = Lexeme::new(LexemeIdx(3), b"ab".to_vec(), 2);
    assert_eq!(all.visible_bytes(), Vec::<u8>::new());
    assert_eq!(all.hidden_bytes(), b"ab".to_vec());
    assert!(Lexeme::bogus().is_bogus());
    assert!(Lexeme::just_idx(LexemeIdx(0)).is_bogus());
    assert!(!Lexeme::just_idx(LexemeIdx(1)).is_bogus());
    assert_eq!(Lexeme::just_idx(LexemeIdx(4)).idx.as_usize(), 4);
    let c = l.copy();
    assert_eq!((c.idx, c.bytes, c.hidden_len), (LexemeIdx(3), b"hello".to_vec(), 2));
    assert_eq!(LexemeIdx::skip(), LexemeIdx(0));
    assert_eq!(LexemeIdx::new(7), LexemeIdx(7));
}

#[test]
fn lexeme_spec_forces_prefixes_of_its_literal() {
    let lit = LexemeSpec { name: "kw".to_string(), literal: Some(b"while".to_vec()) };
    assert!(lit.has_forced_bytes(&b"".to_vec()));
    assert!(lit.has_forced_bytes(&b"wh".to_vec()));
    assert!(lit.has_forced_bytes(&b"while".to_vec()));
    assert!(!lit.has_forced_bytes(&b"whale".to_vec()));
    assert!(!lit.has_forced_bytes(&b"whiles".to_vec()));
    let any = LexemeSpec { name: "id".to_string(), literal: None };
    assert!(!any.has_forced_bytes(&b"".to_vec()));
}

#[test]
fn row_info_windows_and_budgets() {
    let mut info = RowInfo {
        start_byte_idx: 0,
        lexeme: Lexeme::bogus(),
        token_idx_start: usize::MAX,
        token_idx_stop: 0,
        max_tokens: vec![(LexemeIdx(1), 9), (LexemeIdx(2), 4), (LexemeIdx(1), 5)],
    };
    info.apply_token_idx(3);
    assert_eq!((info.token_idx_start, info.token_idx_stop), (3, 3));
    info.apply_token_idx(5);
    assert_eq!((info.token_idx_start, info.token_idx_stop), (3, 5));
    info.apply_token_idx(1);
    assert_eq!((info.token_idx_start, info.token_idx_stop), (1, 5));
    assert_eq!(info.max_tokens_for(LexemeIdx(1)), 5);
    assert_eq!(info.max_tokens_for(LexemeIdx(2)), 4);
    assert_eq!(info.max_tokens_for(LexemeIdx(3)), usize::MAX);
}

fn empty_spec(n: usize) -> LexerSpec {
    let dead = StateDesc {
        next: vec![StateID(0); 256],
        possible: LexemeSet::new(n),
        accepting: None,
        accepting_hidden_len: 0,
        possible_hidden_len: 0,
        allows_eos: false,
        forced_end: false,
    };
    LexerSpec {
        greedy: false,
        lexemes: (0..n).map(|_| LexemeSpec { name: String::new(), literal: None }).collect(),
        dfa: Arc::new(Dfa { states: vec![dead], starts: Vec::new(), limits: Vec::new() }),
    }
}

#[test]
fn grammar_builder_checks_what_it_is_given() {
    let mut g = CGrammar::new(empty_spec(2));
    assert_eq!(g.start(), CSymIdx(0));
    assert!(CSymIdx::null().is_null());
    let s = g
        .add_symbol(CSymbol::new("S".to_string(), None, false, SymbolProps::plain(), None))
        .unwrap();
    assert_eq!(s, CSymIdx(1));
    assert_eq!(s.as_index(), 1);
    // a lexeme class that the lexer does not have
    assert!(g
        .add_symbol(CSymbol::new("T".to_string(), Some(LexemeIdx(2)), false, SymbolProps::plain(), None))
        .is_none());
    // a capturing symbol without a name for the capture
    let mut bad = CSymbol::new("C".to_string(), None, false, SymbolProps::plain(), None);
    bad.sym_flags.capture = true;
    assert!(g.add_symbol(bad).is_none());
    let t = g
        .add_symbol(CSymbol::new("T".to_string(), Some(LexemeIdx(1)), false, SymbolProps::plain(), None))
        .unwrap();
    assert!(g.sym_data(t).is_terminal);
    assert_eq!(g.sym_name(t), "T");
    // rules over symbols that do not exist, or over the null symbol
    assert!(g.add_rule(CSymIdx(9), &vec![t]).is_none());
    assert!(g.add_rule(s, &vec![CSymIdx(9)]).is_none());
    assert!(g.add_rule(s, &vec![CSymIdx(0)]).is_none());
    assert!(g.add_rule(CSymIdx(0), &vec![t]).is_none());
    let r = g.add_rule(s, &vec![t, t]).unwrap();
    assert_eq!(r, RuleIdx(0));
    assert_eq!(g.add_rule(s, &vec![]).unwrap(), RuleIdx(3));
    assert_eq!(g.rules_of(s), &vec![RuleIdx(0), RuleIdx(3)]);
    assert_eq!(g.sym_idx_dot(RuleIdx(0)), t);
    assert_eq!(g.sym_idx_dot(RuleIdx(1)), t);
    assert!(g.sym_idx_dot(RuleIdx(2)).is_null());
    assert!(g.sym_idx_dot(RuleIdx(3)).is_null());
    assert_eq!(g.sym_idx_lhs(RuleIdx(2)), s);
    assert_eq!(g.sym_data_dot(RuleIdx(1)).lexeme, Some(LexemeIdx(1)));
    assert!(!g.sym_flags_lhs(RuleIdx(0)).capture());
    assert!(!g.sym_flags_lhs(RuleIdx(0)).stop_capture());
    assert!(!g.sym_flags_lhs(RuleIdx(0)).hidden());
    assert!(!g.sym_flags_lhs(RuleIdx(0)).commit_point());
    assert!(!g.set_start(CSymIdx(9)));
    assert!(g.set_start(s));
    assert_eq!(g.start(), s);
    assert_eq!(g.lexer_spec().lexemes.len(), 2);
    assert_eq!(g.lexer_spec().alloc_lexeme_set().len(), 2);
}

#[test]
fn model_variables_compare_by_content() {
    let a = ModelVariable::Other("x".to_string());
    assert!(a.same(&ModelVariable::Other("x".to_string())));
    assert!(!a.same(&ModelVariable::Other("y".to_string())));
    assert!(!a.same(&ModelVariable::ActiveRoleEnd));
    assert!(ModelVariable::ActiveRoleEnd.same(&ModelVariable::ActiveRoleEnd));
    assert!(ModelVariable::eos_token().is_eos());
    assert!(ModelVariable::eos_token().same(&ModelVariable::SpecialToken(SpecialToken::EndOfSentence)));
    assert!(!ModelVariable::SpecialToken(SpecialToken::Padding).is_eos());
    assert!(a.copy().same(&a));
    assert!(a.clone().same(&a));
}

fn state(next: &[(u8, u32)], possible: &[bool], accepting: Option<usize>, hidden: usize) -> StateDesc {
    let mut table = vec![StateID(0); 256];
    for (b, to) in next {
        table[*b as usize] = StateID(*to);
    }
    StateDesc {
        next: table,
        possible: LexemeSet { bits: possible.to_vec() },
        accepting: accepting.map(LexemeIdx),
        accepting_hidden_len: hidden,
        possible_hidden_len: hidden,
        allows_eos: accepting.is_some(),
        forced_end: next.is_empty() && accepting.is_some(),
    }
}

/// Classes: 0 skip, 1 "ab" with one hidden byte. States: 1 start, 2 after
/// "a", 3 after "ab".
fn small_spec(greedy: bool) -> LexerSpec {
    let states = vec![
        state(&[], &[false, false], None, 0),
        state(&[(b'a', 2)], &[false, true], None, 0),
        state(&[(b'b', 3)], &[false, true], None, 0),
        state(&[], &[false, true], Some(1), 1),
    ];
    let allowed = LexemeSet { bits: vec![false, true] };
    LexerSpec {
        greedy,
        lexemes: vec![
            LexemeSpec { name: "skip".to_string(), literal: None },
            LexemeSpec { name: "ab".to_string(), literal: Some(b"ab".to_vec()) },
        ],
        dfa: Arc::new(Dfa {
            states,
            starts: vec![StartEntry { allowed: allowed.copy(), state: StateID(1) }],
            limits: vec![LimitEntry { from: StateID(2), allowed, to: StateID(1) }],
        }),
    }
}

fn lexeme_of(r: LexerResult) -> (usize, Option<u8>, bool, usize) {
    match r {
        LexerResult::Lexeme(pre) => (pre.idx.0, pre.byte, pre.byte_next_row, pre.hidden_len),
        _ => panic!("expected a lexeme"),
    }
}

#[test]
fn lazy_lexer_ends_a_lexeme_as_soon_as_it_matches() {
    let lexer = Lexer::from(&small_spec(false)).unwrap();
    let allowed = LexemeSet { bits: vec![false, true] };
    let start = lexer.start_state(&allowed, None);
    assert_eq!(start, StateID(1));
    assert_eq!(lexer.start_state(&allowed, Some(b'a')), StateID(2));
    assert_eq!(lexer.start_state(&LexemeSet { bits: vec![true, true] }, None), StateID(0));
    assert!(lexer.a_dead_state().is_dead());
    assert_eq!(StateID::dead(), StateID(0));
    assert_eq!(StateID(3).as_usize(), 3);
    match lexer.advance(start, b'a', false) {
        LexerResult::State(s, b) => assert_eq!((s, b), (StateID(2), b'a')),
        _ => panic!("expected a state"),
    }
    assert!(lexer.advance(start, b'x', false).is_error());
    assert_eq!(lexeme_of(lexer.advance(StateID(2), b'b', false)), (1, Some(b'b'), false, 1));
    assert!(lexer.try_lexeme_end(StateID(2)).is_error());
    assert_eq!(lexeme_of(lexer.try_lexeme_end(StateID(3))), (1, None, false, 0));
    assert_eq!(lexeme_of(lexer.force_lexeme_end(StateID(2))), (1, None, false, 0));
    assert!(lexer.force_lexeme_end(StateID(0)).is_error());
    assert!(!lexer.allows_eos(StateID(2)));
    assert!(lexer.allows_eos(StateID(3)));
    assert_eq!(lexer.possible_lexemes(StateID(2)).bits, vec![false, true]);
    assert_eq!(lexer.possible_hidden_len(StateID(3)), 1);
    assert_eq!(lexer.possible_hidden_len(StateID(2)), 0);
    assert_eq!(lexer.limit_state_to(StateID(2), &allowed), StateID(1));
    assert_eq!(lexer.limit_state_to(StateID(3), &allowed), StateID(0));
    assert!(lexer.check_for_single_byte_lexeme(StateID(2), b'b').is_none());
    let single = lexer.check_for_single_byte_lexeme(StateID(3), b'b').unwrap();
    assert_eq!((single.idx, single.byte, single.byte_next_row, single.hidden_len), (LexemeIdx(1), Some(b'b'), false, 0));
}

#[test]
fn greedy_lexer_ends_a_lexeme_at_the_byte_that_cannot_extend_it() {
    let lexer = Lexer::from(&small_spec(true)).unwrap();
    match lexer.advance(StateID(2), b'b', false) {
        LexerResult::State(s, b) => assert_eq!((s, b), (StateID(3), b'b')),
        _ => panic!("expected a state"),
    }
    assert_eq!(lexeme_of(lexer.advance(StateID(3), b'x', false)), (1, Some(b'x'), true, 0));
    assert!(lexer.advance(StateID(2), b'x', false).is_error());
}

#[test]
fn lexer_refuses_bad_tables() {
    assert_eq!(Lexer::from(&empty_spec(0)).err(), Some(LexerError::NoLexemes));
    assert!(Lexer::from(&empty_spec(1)).is_ok());
    let mut spec = small_spec(false);
    Arc::get_mut(&mut spec.dfa).unwrap().states[1].next.pop();
    assert_eq!(Lexer::from(&spec).err(), Some(LexerError::InvalidTables));
    let mut spec = small_spec(false);
    Arc::get_mut(&mut spec.dfa).unwrap().states[0].allows_eos = true;
    assert_eq!(Lexer::from(&spec).err(), Some(LexerError::InvalidTables));
    // a start state that holds a class possible that is not allowed
    let mut spec = small_spec(false);
    Arc::get_mut(&mut spec.dfa).unwrap().starts[0].allowed = LexemeSet { bits: vec![true, false] };
    assert_eq!(Lexer::from(&spec).err(), Some(LexerError::InvalidTables));
    // a move that makes a class possible again
    let mut spec = small_spec(false);
    Arc::get_mut(&mut spec.dfa).unwrap().states[2].possible = LexemeSet { bits: vec![false, false] };
    assert_eq!(Lexer::from(&spec).err(), Some(LexerError::InvalidTables));
    let mut spec = small_spec(false);
    Arc::get_mut(&mut spec.dfa).unwrap().limits[0].to = StateID(77);
    assert_eq!(Lexer::from(&spec).err(), Some(LexerError::InvalidTables));
    assert!(small_spec(false).dfa.check(2));
    assert!(!small_spec(false).dfa.check(3));
}

#[test]
fn buffer_sizes_are_in_mebibytes() {
    let args = Args {
        aicirt: "aicirt".to_string(),
        tokenizer: "gpt4".to_string(),
        json_size: 32,
        bin_size: 3,
        shm_prefix: "/aici0-".to_string(),
        busy_wait_time: 1,
    };
    assert_eq!(M, 1 << 20);
    assert_eq!(args.json_bytes(), Some(32 << 20));
    assert_eq!(args.bin_bytes(), Some(3 << 20));
    let huge = Args { json_size: usize::MAX, ..args };
    assert_eq!(huge.json_bytes(), None);
}

#[test]
fn ensure_items_adds_null_slots_and_keeps_what_was_written() {
    let mut s = Scratch::new();
    let a = Item::new(RuleIdx(1), 0);
    let b = Item::new(RuleIdx(2), 0);
    s.just_add(a, 0);
    s.just_add(b, 0);
    assert_eq!(s.items.len(), 2);
    s.ensure_items(5);
    assert_eq!(s.items, vec![a, b, Item::null(), Item::null(), Item::null()]);
    assert_eq!((s.row_start, s.row_end), (0, 2));
    assert_eq!(s.item_props.len(), 2);
    // Enough slots are there already: nothing changes.
    s.ensure_items(3);
    assert_eq!(s.items.len(), 5);
    // A slot that was added is written to, not pushed behind.
    s.just_add(Item::new(RuleIdx(3), 0), 1);
    assert_eq!(s.items.len(), 5);
    assert_eq!(s.item_at(2), Item::new(RuleIdx(3), 0));
    assert_eq!(s.row_len(), 3);
}

#[test]
fn bogus_lexeme_is_class_zero_without_bytes() {
    let l = Lexeme::bogus();
    assert_eq!(l.idx, LexemeIdx(0));
    assert!(l.bytes.is_empty());
    assert_eq!(l.hidden_len, 0);
    assert!(l.is_bogus());
}
