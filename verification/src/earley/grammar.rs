//! The compiled grammar that the recognizer runs on: symbols, and rules laid
//! out as one flat array of positions.

use vstd::prelude::*;
use std::sync::Arc;
use crate::earley::lexerspec::LexemeIdx;
use crate::earley::lexerspec::LexerSpec;

verus! {

/// Index of a grammar symbol. Index 0 is the null symbol, which stands after
/// the dot of a completed rule.
#[derive(Debug, Clone, Copy, PartialEq, Eq, Structural, Hash)]
pub struct CSymIdx(pub u16);

impl CSymIdx {
    pub open spec fn null_spec() -> CSymIdx {
        CSymIdx(0)
    }

    /// The symbol that marks the end of a rule.
    pub fn null() -> (r: CSymIdx)
        ensures
            r == Self::null_spec(),
    {
        CSymIdx(0)
    }

    pub fn is_null(&self) -> (r: bool)
        ensures
            r == (*self == Self::null_spec()),
    {
        self.0 == 0
    }

    pub fn as_index(&self) -> (r: usize)
        ensures
            r == self.0,
    {
        self.0 as usize
    }
}

/// A position in the flat rule array: a rule together with a dot.
/// The position after the dot moved by one symbol is the next index.
#[derive(Debug, Clone, Copy, PartialEq, Eq, Structural, Hash)]
pub struct RuleIdx(pub u32);

impl RuleIdx {
    pub fn from_index(idx: u32) -> (r: RuleIdx)
        ensures
            r.0 == idx,
    {
        RuleIdx(idx)
    }

    pub fn as_index(&self) -> (r: usize)
        ensures
            r == self.0,
    {
        self.0 as usize
    }
}

/// Per-symbol switches that the recognizer consults when a rule of the
/// symbol completes.
#[derive(Debug, Clone, Copy, PartialEq, Eq, Structural)]
pub struct SymFlags {
    pub capture: bool,
    pub stop_capture: bool,
    pub hidden: bool,
    pub commit_point: bool,
}

impl SymFlags {
    pub fn capture(&self) -> (r: bool)
        ensures
            r == self.capture,
    {
        self.capture
    }

    pub fn stop_capture(&self) -> (r: bool)
        ensures
            r == self.stop_capture,
    {
        self.stop_capture
    }

    pub fn hidden(&self) -> (r: bool)
        ensures
            r == self.hidden,
    {
        self.hidden
    }

    pub fn commit_point(&self) -> (r: bool)
        ensures
            r == self.commit_point,
    {
        self.commit_point
    }
}

/// Tokens with a fixed meaning to the model.
#[derive(Debug, Clone, Copy, PartialEq, Eq, Structural)]
pub enum SpecialToken {
    Unknown,
    Padding,
    Separator,
    BeginningOfSentence,
    EndOfSentence,
}

/// A placeholder in the grammar that the model's runtime fills in.
#[derive(Debug)]
pub enum ModelVariable {
    SpecialToken(SpecialToken),
    ActiveRoleEnd,
    Other(String),
}

impl ModelVariable {
    /// Equality of model variables: same variant, same token or same name.
    pub open spec fn same_spec(&self, other: &ModelVariable) -> bool {
        match (*self, *other) {
            (ModelVariable::SpecialToken(a), ModelVariable::SpecialToken(b)) => a == b,
            (ModelVariable::ActiveRoleEnd, ModelVariable::ActiveRoleEnd) => true,
            (ModelVariable::Other(a), ModelVariable::Other(b)) => a@ == b@,
            _ => false,
        }
    }

    pub open spec fn is_eos_spec(&self) -> bool {
        *self == ModelVariable::SpecialToken(SpecialToken::EndOfSentence)
    }

    pub fn eos_token() -> (r: ModelVariable)
        ensures
            r.is_eos_spec(),
    {
        ModelVariable::SpecialToken(SpecialToken::EndOfSentence)
    }

    pub fn is_eos(&self) -> (r: bool)
        ensures
            r == self.is_eos_spec(),
    {
        match self {
            ModelVariable::SpecialToken(t) => *t == SpecialToken::EndOfSentence,
            _ => false,
        }
    }

    pub fn same(&self, other: &ModelVariable) -> (r: bool)
        ensures
            r == self.same_spec(other),
    {
        match self {
            ModelVariable::SpecialToken(a) => match other {
                ModelVariable::SpecialToken(b) => *a == *b,
                _ => false,
            },
            ModelVariable::ActiveRoleEnd => match other {
                ModelVariable::ActiveRoleEnd => true,
                _ => false,
            },
            ModelVariable::Other(a) => match other {
                ModelVariable::Other(b) => *a == *b,
                _ => false,
            },
        }
    }

    pub fn copy(&self) -> (r: ModelVariable)
        ensures
            r == *self,
            r.same_spec(self),
            self.same_spec(&r),
    {
        match self {
            ModelVariable::SpecialToken(a) => ModelVariable::SpecialToken(*a),
            ModelVariable::ActiveRoleEnd => ModelVariable::ActiveRoleEnd,
            ModelVariable::Other(a) => ModelVariable::Other(a.clone()),
        }
    }
}

impl Clone for ModelVariable {
    fn clone(&self) -> (r: ModelVariable)
        ensures
            r.same_spec(self),
    {
        self.copy()
    }
}

/// Identifies one grammar among those handed to the runtime together.
#[derive(Debug, Clone, Copy, PartialEq, Eq, Structural, Hash)]
pub struct GrammarId(pub usize);

/// How a nested grammar is to be run when the parent grammar reaches it.
#[derive(Debug, Clone, Copy, PartialEq, Eq, Structural)]
pub struct GenGrammarOptions {
    pub grammar: GrammarId,
    pub max_tokens_grm: usize,
}

/// Properties that a grammar author attaches to a symbol.
#[derive(Debug)]
pub struct SymbolProps {
    /// Token budget of the symbol; `usize::MAX` means no limit.
    pub max_tokens: usize,
    pub capture_name: Option<String>,
    pub stop_capture_name: Option<String>,
    pub hidden: bool,
    pub model_variable: Option<ModelVariable>,
}

impl SymbolProps {
    /// Properties of a symbol that nothing special is asked of.
    pub fn plain() -> (r: SymbolProps)
        ensures
            r.max_tokens == usize::MAX,
            r.capture_name is None,
            r.stop_capture_name is None,
            !r.hidden,
            r.model_variable is None,
    {
        SymbolProps {
            max_tokens: usize::MAX,
            capture_name: None,
            stop_capture_name: None,
            hidden: false,
            model_variable: None,
        }
    }
}

/// One symbol of a compiled grammar.
#[derive(Debug)]
pub struct CSymbol {
    pub idx: CSymIdx,
    pub name: String,
    pub is_terminal: bool,
    pub is_nullable: bool,
    pub props: SymbolProps,
    pub gen_grammar: Option<GenGrammarOptions>,
    /// First positions of the symbol's rules.
    pub rules: Vec<RuleIdx>,
    pub sym_flags: SymFlags,
    /// The lexeme class that a terminal stands for.
    pub lexeme: Option<LexemeIdx>,
}

impl CSymbol {
    /// A symbol as it is before any rule is attached to it.
    pub fn new(
        name: String,
        lexeme: Option<LexemeIdx>,
        is_nullable: bool,
        props: SymbolProps,
        gen_grammar: Option<GenGrammarOptions>,
    ) -> (r: CSymbol)
        ensures
            r.idx == CSymIdx::null_spec(),
            r.name@ == name@,
            r.is_terminal == lexeme is Some,
            r.is_nullable == is_nullable,
            r.props == props,
            r.gen_grammar == gen_grammar,
            r.rules@.len() == 0,
            r.lexeme == lexeme,
            r.sym_flags.capture == props.capture_name is Some,
            r.sym_flags.stop_capture == props.stop_capture_name is Some,
            r.sym_flags.hidden == props.hidden,
            !r.sym_flags.commit_point,
    {
        let sym_flags = SymFlags {
            capture: props.capture_name.is_some(),
            stop_capture: props.stop_capture_name.is_some(),
            hidden: props.hidden,
            commit_point: false,
        };
        CSymbol {
            idx: CSymIdx(0),
            name,
            is_terminal: lexeme.is_some(),
            is_nullable,
            props,
            gen_grammar,
            rules: Vec::new(),
            sym_flags,
            lexeme,
        }
    }
}

/// The grammar behind a shared handle.
pub open spec fn shared_grammar(g: Arc<CGrammar>) -> CGrammar {
    *g
}

/// A compiled context-free grammar.
pub struct CGrammar {
    pub(crate) start_symbol: CSymIdx,
    pub(crate) lexer_spec: LexerSpec,
    pub(crate) symbols: Vec<CSymbol>,
    /// The symbol after the dot at each position; the null symbol closes a rule.
    pub(crate) rules: Vec<CSymIdx>,
    /// The left-hand side of the rule that each position belongs to.
    pub(crate) rule_lhs: Vec<CSymIdx>,
}

impl CGrammar {
    pub closed spec fn num_symbols(&self) -> nat {
        self.symbols@.len()
    }

    /// Number of positions in the rule array.
    pub closed spec fn num_rules(&self) -> nat {
        self.rules@.len()
    }

    pub closed spec fn start_spec(&self) -> CSymIdx {
        self.start_symbol
    }

    /// The symbol after the dot at `rule`.
    pub closed spec fn sym_dot_spec(&self, rule: RuleIdx) -> CSymIdx {
        self.rules@[rule.0 as int]
    }

    /// The left-hand side of the rule that `rule` is a position of.
    pub closed spec fn lhs_spec(&self, rule: RuleIdx) -> CSymIdx {
        self.rule_lhs@[rule.0 as int]
    }

    pub closed spec fn symbol(&self, sym: CSymIdx) -> CSymbol {
        self.symbols@[sym.0 as int]
    }

    pub closed spec fn lexer_spec_view(&self) -> LexerSpec {
        self.lexer_spec
    }

    /// The two arrays that describe the positions have one length.
    pub closed spec fn shape_ok(&self) -> bool {
        self.rule_lhs@.len() == self.rules@.len()
    }

    pub open spec fn valid_sym(&self, sym: CSymIdx) -> bool {
        sym.0 < self.num_symbols()
    }

    pub open spec fn valid_rule(&self, rule: RuleIdx) -> bool {
        rule.0 < self.num_rules()
    }

    /// Whether the dot at `rule` stands at the end of its rule.
    pub open spec fn is_complete(&self, rule: RuleIdx) -> bool {
        self.sym_dot_spec(rule) == CSymIdx::null_spec()
    }

    /// The symbol after the dot at `rule`, as data.
    pub open spec fn symbol_dot(&self, rule: RuleIdx) -> CSymbol {
        self.symbol(self.sym_dot_spec(rule))
    }

    pub open spec fn num_lexemes(&self) -> nat {
        self.lexer_spec_view().lexemes@.len()
    }

    /// What holds of one symbol of a well-formed grammar.
    pub open spec fn symbol_wf(&self, sym: CSymIdx) -> bool {
        let s = self.symbol(sym);
        &&& s.idx == sym
        &&& forall|i: int|
            0 <= i < s.rules@.len() ==> self.valid_rule(#[trigger] s.rules@[i]) && self.lhs_spec(
                s.rules@[i],
            ) == sym
        &&& (s.lexeme matches Some(lx) ==> lx.0 < self.num_lexemes())
        &&& (s.sym_flags.capture ==> s.props.capture_name is Some)
        &&& (s.sym_flags.stop_capture ==> s.props.stop_capture_name is Some)
    }

    /// What holds of one position of a well-formed grammar.
    pub open spec fn rule_wf(&self, rule: RuleIdx) -> bool {
        &&& self.valid_sym(self.sym_dot_spec(rule))
        &&& self.valid_sym(self.lhs_spec(rule))
        &&& self.lhs_spec(rule) != CSymIdx::null_spec()
        &&& (!self.is_complete(rule) ==> rule.0 + 1 < self.num_rules() && self.lhs_spec(
            RuleIdx((rule.0 + 1) as u32),
        ) == self.lhs_spec(rule))
    }

    /// Well-formedness: every index stored in the grammar points into it,
    /// every rule is closed by the null symbol, and the rules listed under a
    /// symbol are rules of that symbol.
    pub open spec fn wf(&self) -> bool {
        &&& self.shape_ok()
        &&& 1 <= self.num_symbols() <= 0x1_0000
        &&& self.num_rules() <= 0xffff_ffff
        &&& self.valid_sym(self.start_spec())
        &&& self.symbol(CSymIdx::null_spec()).rules@.len() == 0
        &&& self.symbol(CSymIdx::null_spec()).lexeme is None
        &&& self.symbol(CSymIdx::null_spec()).gen_grammar is None
        &&& self.symbol(CSymIdx::null_spec()).props.model_variable is None
        &&& !self.symbol(CSymIdx::null_spec()).is_terminal
        &&& forall|sym: CSymIdx| self.valid_sym(sym) ==> #[trigger] self.symbol_wf(sym)
        &&& forall|rule: RuleIdx| self.valid_rule(rule) ==> #[trigger] self.rule_wf(rule)
    }

    /// A grammar over the given lexer that has no symbol but the null symbol
    /// and no rule.
    pub fn new(lexer_spec: LexerSpec) -> (r: CGrammar)
        ensures
            r.wf(),
            r.num_symbols() == 1,
            r.num_rules() == 0,
            r.start_spec() == CSymIdx::null_spec(),
            r.lexer_spec_view() == lexer_spec,
    {
        let null_sym = CSymbol {
            idx: CSymIdx(0),
            name: String::new(),
            is_terminal: false,
            is_nullable: false,
            props: SymbolProps::plain(),
            gen_grammar: None,
            rules: Vec::new(),
            sym_flags: SymFlags { capture: false, stop_capture: false, hidden: false, commit_point: false },
            lexeme: None,
        };
        let mut symbols: Vec<CSymbol> = Vec::new();
        symbols.push(null_sym);
        let g = CGrammar {
            start_symbol: CSymIdx(0),
            lexer_spec,
            symbols,
            rules: Vec::new(),
            rule_lhs: Vec::new(),
        };
        assert forall|sym: CSymIdx| g.valid_sym(sym) implies #[trigger] g.symbol_wf(sym) by {
            assert(sym.0 == 0);
        }
        g
    }

    /// Whether `sym` could be added to the grammar as it stands.
    pub open spec fn accepts_symbol(&self, sym: &CSymbol) -> bool {
        &&& self.num_symbols() < 0x1_0000
        &&& sym.rules@.len() == 0
        &&& (sym.lexeme matches Some(lx) ==> lx.0 < self.num_lexemes())
        &&& (sym.sym_flags.capture ==> sym.props.capture_name is Some)
        &&& (sym.sym_flags.stop_capture ==> sym.props.stop_capture_name is Some)
    }

    /// Adds a symbol and returns its index, or returns `None` and leaves the
    /// grammar as it is where the symbol does not fit it.
    pub fn add_symbol(&mut self, sym: CSymbol) -> (r: Option<CSymIdx>)
        requires
            old(self).wf(),
        ensures
            final(self).wf(),
            final(self).lexer_spec_view() == old(self).lexer_spec_view(),
            final(self).start_spec() == old(self).start_spec(),
            final(self).num_rules() == old(self).num_rules(),
            forall|rule: RuleIdx|
                old(self).valid_rule(rule) ==> final(self).sym_dot_spec(rule) == old(self).sym_dot_spec(rule) && final(self).lhs_spec(rule) == old(self).lhs_spec(rule),
            forall|s: CSymIdx|
                old(self).valid_sym(s) ==> final(self).symbol(s) == old(self).symbol(s),
            r is Some <==> old(self).accepts_symbol(&sym),
            r is None ==> final(self).num_symbols() == old(self).num_symbols(),
            r matches Some(idx) ==> {
                &&& idx.0 == old(self).num_symbols()
                &&& final(self).num_symbols() == old(self).num_symbols() + 1
                &&& final(self).symbol(idx) == (CSymbol { idx, ..sym })
            },
    {
        let n = self.symbols.len();
        if n >= 0x1_0000 || sym.rules.len() != 0 {
            return None;
        }
        match sym.lexeme {
            Some(lx) => {
                if lx.0 >= self.lexer_spec.lexemes.len() {
                    return None;
                }
            },
            None => {},
        }
        if sym.sym_flags.capture && sym.props.capture_name.is_none() {
            return None;
        }
        if sym.sym_flags.stop_capture && sym.props.stop_capture_name.is_none() {
            return None;
        }
        let idx = CSymIdx(n as u16);
        let mut sym = sym;
        sym.idx = idx;
        self.symbols.push(sym);
        proof {
            assert forall|s: CSymIdx| self.valid_sym(s) implies #[trigger] self.symbol_wf(s) by {
                if s.0 < n {
                    assert(old(self).symbol_wf(s));
                    assert(self.symbol(s) == old(self).symbol(s));
                }
            }
            assert forall|rule: RuleIdx| self.valid_rule(rule) implies #[trigger] self.rule_wf(
                rule,
            ) by {
                assert(old(self).rule_wf(rule));
            }
        }
        Some(idx)
    }

    /// Makes `start` the start symbol; returns false, and changes nothing,
    /// where `start` is not a symbol of the grammar.
    pub fn set_start(&mut self, start: CSymIdx) -> (r: bool)
        requires
            old(self).wf(),
        ensures
            final(self).wf(),
            r == old(self).valid_sym(start),
            final(self).start_spec() == (if r { start } else { old(self).start_spec() }),
            final(self).lexer_spec_view() == old(self).lexer_spec_view(),
            final(self).num_rules() == old(self).num_rules(),
            final(self).num_symbols() == old(self).num_symbols(),
            forall|rule: RuleIdx|
                final(self).sym_dot_spec(rule) == old(self).sym_dot_spec(rule) && final(self).lhs_spec(rule) == old(self).lhs_spec(rule),
            forall|s: CSymIdx| final(self).symbol(s) == old(self).symbol(s),
    {
        if start.as_index() >= self.symbols.len() {
            return false;
        }
        self.start_symbol = start;
        proof {
            assert forall|s: CSymIdx| self.valid_sym(s) implies #[trigger] self.symbol_wf(s) by {
                assert(old(self).symbol_wf(s));
            }
            assert forall|rule: RuleIdx| self.valid_rule(rule) implies #[trigger] self.rule_wf(
                rule,
            ) by {
                assert(old(self).rule_wf(rule));
            }
        }
        true
    }

    /// Whether a rule `lhs -> rhs` could be added to the grammar as it stands.
    pub open spec fn accepts_rule(&self, lhs: CSymIdx, rhs: Seq<CSymIdx>) -> bool {
        &&& self.valid_sym(lhs)
        &&& lhs != CSymIdx::null_spec()
        &&& self.num_rules() + rhs.len() + 1 <= 0xffff_ffff
        &&& forall|i: int|
            0 <= i < rhs.len() ==> self.valid_sym(#[trigger] rhs[i]) && rhs[i]
                != CSymIdx::null_spec()
    }

    /// Adds the rule `lhs -> rhs` and returns its first position, or returns
    /// `None` and leaves the grammar as it is where a symbol is missing or the
    /// rule array is full. The rule takes `rhs.len() + 1` positions: one before
    /// each symbol of `rhs`, and the one at its end.
    pub fn add_rule(&mut self, lhs: CSymIdx, rhs: &Vec<CSymIdx>) -> (r: Option<RuleIdx>)
        requires
            old(self).wf(),
        ensures
            final(self).wf(),
            final(self).lexer_spec_view() == old(self).lexer_spec_view(),
            final(self).start_spec() == old(self).start_spec(),
            final(self).num_symbols() == old(self).num_symbols(),
            forall|rule: RuleIdx|
                old(self).valid_rule(rule) ==> final(self).sym_dot_spec(rule) == old(self).sym_dot_spec(rule)
                    && final(self).lhs_spec(rule) == old(self).lhs_spec(rule),
            forall|s: CSymIdx|
                old(self).valid_sym(s) && (r is None || s != lhs) ==> final(self).symbol(s) == old(self).symbol(s),
            r is Some <==> old(self).accepts_rule(lhs, rhs@),
            r is None ==> final(self).num_rules() == old(self).num_rules(),
            r matches Some(first) ==> {
                &&& first.0 == old(self).num_rules()
                &&& final(self).num_rules() == old(self).num_rules() + rhs@.len() + 1
                &&& forall|i: int|
                    0 <= i < rhs@.len() ==> final(self).sym_dot_spec(RuleIdx((first.0 + i) as u32))
                        == #[trigger] rhs@[i]
                &&& final(self).is_complete(RuleIdx((first.0 + rhs@.len()) as u32))
                &&& forall|i: int|
                    0 <= i <= rhs@.len() ==> #[trigger] final(self).lhs_spec(
                        RuleIdx((first.0 + i) as u32),
                    ) == lhs
                &&& final(self).symbol(lhs) == (CSymbol {
                    rules: final(self).symbol(lhs).rules,
                    ..old(self).symbol(lhs)
                })
                &&& final(self).symbol(lhs).rules@ == old(self).symbol(lhs).rules@.push(first)
            },
    {
        if lhs.as_index() >= self.symbols.len() || lhs.0 == 0 {
            return None;
        }
        let base = self.rules.len();
        if rhs.len() >= 0xffff_ffff || base >= 0xffff_ffff - rhs.len() {
            return None;
        }
        let mut k: usize = 0;
        while k < rhs.len()
            invariant
                k <= rhs@.len(),
                *self == *old(self),
                self.wf(),
                forall|i: int| 0 <= i < k ==> rhs@[i].0 < self.symbols@.len() && rhs@[i].0 != 0,
            decreases rhs@.len() - k,
        {
            if rhs[k].as_index() >= self.symbols.len() || rhs[k].0 == 0 {
                return None;
            }
            k += 1;
        }
        let mut i: usize = 0;
        while i < rhs.len()
            invariant
                i <= rhs@.len(),
                base == old(self).rules@.len(),
                base + rhs@.len() + 1 <= 0xffff_ffff,
                self.symbols == old(self).symbols,
                self.start_symbol == old(self).start_symbol,
                self.lexer_spec == old(self).lexer_spec,
                self.rules@.len() == base + i,
                self.rule_lhs@.len() == base + i,
                self.rules@.take(base as int) == old(self).rules@,
                self.rule_lhs@.take(base as int) == old(self).rule_lhs@,
                forall|j: int| base <= j < base + i ==> self.rules@[j] == rhs@[j - base],
                forall|j: int| base <= j < base + i ==> self.rule_lhs@[j] == lhs,
            decreases rhs@.len() - i,
        {
            self.rules.push(rhs[i]);
            self.rule_lhs.push(lhs);
            proof {
                assert(self.rules@.take(base as int) =~= old(self).rules@);
                assert(self.rule_lhs@.take(base as int) =~= old(self).rule_lhs@);
            }
            i += 1;
        }
        self.rules.push(CSymIdx(0));
        self.rule_lhs.push(lhs);
        let first = RuleIdx(base as u32);
        self.symbols[lhs.as_index()].rules.push(first);
        proof {
            assert(self.rules@.take(base as int) =~= old(self).rules@);
            assert(self.rule_lhs@.take(base as int) =~= old(self).rule_lhs@);
            assert forall|rule: RuleIdx| old(self).valid_rule(rule) implies self.sym_dot_spec(rule)
                == old(self).sym_dot_spec(rule) && self.lhs_spec(rule) == old(self).lhs_spec(
                rule,
            ) by {
                assert(self.rules@.take(base as int)[rule.0 as int] == self.rules@[rule.0 as int]);
                assert(self.rule_lhs@.take(base as int)[rule.0 as int] == self.rule_lhs@[rule.0 as int]);
            }
            assert forall|rule: RuleIdx| self.valid_rule(rule) implies #[trigger] self.rule_wf(
                rule,
            ) by {
                if rule.0 < base {
                    assert(old(self).rule_wf(rule));
                    assert(old(self).valid_rule(rule));
                    if !old(self).is_complete(rule) {
                        let nxt = RuleIdx((rule.0 + 1) as u32);
                        assert(old(self).valid_rule(nxt));
                    }
                } else {
                    let j = rule.0 - base;
                    if j < rhs@.len() {
                        assert(self.rules@[rule.0 as int] == rhs@[j]);
                    }
                }
            }
            assert forall|s: CSymIdx| self.valid_sym(s) implies #[trigger] self.symbol_wf(s) by {
                assert(old(self).symbol_wf(s));
                if s == lhs {
                    let sd = self.symbol(s);
                    assert forall|i: int| 0 <= i < sd.rules@.len() implies self.valid_rule(
                        #[trigger] sd.rules@[i],
                    ) && self.lhs_spec(sd.rules@[i]) == s by {
                        if i < sd.rules@.len() - 1 {
                            assert(sd.rules@[i] == old(self).symbol(s).rules@[i]);
                            assert(old(self).valid_rule(sd.rules@[i]));
                        }
                    }
                } else {
                    assert(self.symbol(s) == old(self).symbol(s));
                    let sd = self.symbol(s);
                    assert forall|i: int| 0 <= i < sd.rules@.len() implies self.valid_rule(
                        #[trigger] sd.rules@[i],
                    ) && self.lhs_spec(sd.rules@[i]) == s by {
                        assert(old(self).valid_rule(sd.rules@[i]));
                    }
                }
            }
        }
        Some(first)
    }

    pub fn start(&self) -> (r: CSymIdx)
        ensures
            r == self.start_spec(),
    {
        self.start_symbol
    }

    pub fn lexer_spec(&self) -> (r: &LexerSpec)
        ensures
            *r == self.lexer_spec_view(),
    {
        &self.lexer_spec
    }

    pub fn sym_data(&self, sym: CSymIdx) -> (r: &CSymbol)
        requires
            self.valid_sym(sym),
        ensures
            *r == self.symbol(sym),
    {
        &self.symbols[sym.as_index()]
    }

    /// First positions of the rules of `sym`.
    pub fn rules_of(&self, sym: CSymIdx) -> (r: &Vec<RuleIdx>)
        requires
            self.valid_sym(sym),
        ensures
            *r == self.symbol(sym).rules,
    {
        &self.symbols[sym.as_index()].rules
    }

    /// The symbol after the dot at `rule`; the null symbol where the rule is complete.
    pub fn sym_idx_dot(&self, rule: RuleIdx) -> (r: CSymIdx)
        requires
            self.valid_rule(rule),
        ensures
            r == self.sym_dot_spec(rule),
    {
        self.rules[rule.as_index()]
    }

    pub fn sym_idx_lhs(&self, rule: RuleIdx) -> (r: CSymIdx)
        requires
            self.wf(),
            self.valid_rule(rule),
        ensures
            r == self.lhs_spec(rule),
    {
        self.rule_lhs[rule.as_index()]
    }

    pub fn sym_flags_lhs(&self, rule: RuleIdx) -> (r: SymFlags)
        requires
            self.wf(),
            self.valid_rule(rule),
        ensures
            r == self.symbol(self.lhs_spec(rule)).sym_flags,
    {
        proof {
            assert(self.rule_wf(rule));
        }
        let lhs = self.rule_lhs[rule.as_index()];
        self.symbols[lhs.as_index()].sym_flags
    }

    pub fn sym_data_dot(&self, rule: RuleIdx) -> (r: &CSymbol)
        requires
            self.wf(),
            self.valid_rule(rule),
        ensures
            *r == self.symbol_dot(rule),
    {
        proof {
            assert(self.rule_wf(rule));
        }
        let sym = self.rules[rule.as_index()];
        &self.symbols[sym.as_index()]
    }

    pub fn sym_name(&self, sym: CSymIdx) -> (r: &String)
        requires
            self.valid_sym(sym),
        ensures
            *r == self.symbol(sym).name,
    {
        &self.symbols[sym.as_index()].name
    }
}

} // verus!
