//! The lexer: an adapter that turns the byte-by-byte moves of a compiled
//! automaton into lexemes.

use vstd::prelude::*;
use std::sync::Arc;
use crate::earley::lexerspec::LexemeIdx;
use crate::earley::lexerspec::LexemeSet;
use crate::earley::lexerspec::LexerSpec;
use crate::earley::lexerspec::within;

verus! {

/// A state of the automaton. State 0 is the dead state, from which nothing
/// matches.
#[derive(Debug, Clone, Copy, PartialEq, Eq, Structural, Hash)]
pub struct StateID(pub u32);

impl StateID {
    pub open spec fn dead_spec() -> StateID {
        StateID(0)
    }

    pub fn dead() -> (r: StateID)
        ensures
            r == Self::dead_spec(),
    {
        StateID(0)
    }

    pub fn is_dead(&self) -> (r: bool)
        ensures
            r == (*self == Self::dead_spec()),
    {
        self.0 == 0
    }

    pub fn as_usize(&self) -> (r: usize)
        ensures
            r == self.0,
    {
        self.0 as usize
    }
}

/// A lexeme as the lexer reports it, before its bytes are collected.
#[derive(Debug, Clone, Copy)]
pub struct PreLexeme {
    pub idx: LexemeIdx,
    /// The byte that made the lexer report the lexeme, if a byte did.
    pub byte: Option<u8>,
    /// Whether `byte` opens the next lexeme rather than closing this one.
    pub byte_next_row: bool,
    /// How many trailing bytes of the lexeme are lookahead only.
    pub hidden_len: usize,
}

/// What the lexer makes of one byte.
#[derive(Debug, Clone, Copy)]
pub enum LexerResult {
    /// A lexeme ended.
    Lexeme(PreLexeme),
    /// The byte was taken and the lexeme goes on.
    State(StateID, u8),
    /// The byte cannot follow.
    Error,
}

impl LexerResult {
    pub fn is_error(&self) -> (r: bool)
        ensures
            r == (*self is Error),
    {
        match self {
            LexerResult::Error => true,
            _ => false,
        }
    }
}

/// One state of the compiled automaton.
#[derive(Debug)]
pub struct StateDesc {
    /// The state reached on each of the 256 bytes.
    pub next: Vec<StateID>,
    /// The lexeme classes that a continuation from here can still match.
    pub possible: LexemeSet,
    /// The first class that the bytes read so far match in full.
    pub accepting: Option<LexemeIdx>,
    /// How many trailing bytes of that match are lookahead only.
    pub accepting_hidden_len: usize,
    /// The most lookahead bytes that a match through this state can have.
    pub possible_hidden_len: usize,
    /// Whether input may end here.
    pub allows_eos: bool,
    /// Whether the match is over: no byte can extend it.
    pub forced_end: bool,
}

/// The start state to use when exactly the classes of `allowed` may begin.
#[derive(Debug)]
pub struct StartEntry {
    pub allowed: LexemeSet,
    pub state: StateID,
}

/// The state that stands for `from` once only the classes of `allowed` remain.
#[derive(Debug)]
pub struct LimitEntry {
    pub from: StateID,
    pub allowed: LexemeSet,
    pub to: StateID,
}

/// A compiled automaton over lexeme classes, as plain tables.
#[derive(Debug)]
pub struct Dfa {
    pub states: Vec<StateDesc>,
    pub starts: Vec<StartEntry>,
    pub limits: Vec<LimitEntry>,
}

impl Dfa {
    pub open spec fn valid_state(&self, s: StateID) -> bool {
        s.0 < self.states@.len()
    }

    /// What holds of each state of a usable automaton.
    pub open spec fn state_wf(&self, s: StateID, num_lexemes: nat) -> bool {
        let d = self.states@[s.0 as int];
        &&& d.next@.len() == 256
        &&& forall|b: int| 0 <= b < 256 ==> self.valid_state(#[trigger] d.next@[b])
        &&& d.possible@.len() == num_lexemes
        &&& (d.accepting matches Some(lx) ==> lx.0 < num_lexemes)
    }

    /// The dead state leads nowhere and matches nothing.
    pub open spec fn dead_wf(&self) -> bool {
        let d = self.states@[0];
        &&& forall|b: int| 0 <= b < 256 ==> #[trigger] d.next@[b] == StateID::dead_spec()
        &&& d.accepting is None
        &&& d.possible.is_zero_spec()
        &&& !d.allows_eos
        &&& !d.forced_end
    }

    /// No move of the automaton from `s` makes a lexeme class possible that
    /// was not possible in `s`.
    pub open spec fn narrows(&self, s: StateID) -> bool {
        forall|b: int|
            0 <= b < 256 ==> within(
                self.states@[(#[trigger] self.states@[s.0 as int].next@[b]).0 as int].possible@,
                self.states@[s.0 as int].possible@,
            )
    }

    /// A start state has no lexeme class possible that its entry does not
    /// allow.
    pub open spec fn start_wf(&self, i: int) -> bool {
        &&& self.valid_state(self.starts@[i].state)
        &&& within(self.states@[self.starts@[i].state.0 as int].possible@, self.starts@[i].allowed@)
    }

    /// The tables are usable by a lexer over `num_lexemes` classes: every
    /// state they name exists, the dead state is dead, the lexeme classes
    /// that are possible only get fewer as the automaton moves, and a start
    /// state has none possible that is not allowed.
    pub open spec fn wf(&self, num_lexemes: nat) -> bool {
        &&& 1 <= self.states@.len() <= 0xffff_ffff
        &&& forall|s: StateID| self.valid_state(s) ==> #[trigger] self.state_wf(s, num_lexemes)
        &&& forall|s: StateID| self.valid_state(s) ==> #[trigger] self.narrows(s)
        &&& self.dead_wf()
        &&& forall|i: int| 0 <= i < self.starts@.len() ==> #[trigger] self.start_wf(i)
        &&& forall|i: int|
            0 <= i < self.limits@.len() ==> self.valid_state((#[trigger] self.limits@[i]).to)
    }

    fn check_narrows(&self, s: usize, num_lexemes: usize) -> (r: bool)
        requires
            s < self.states@.len(),
            self.states@.len() <= 0xffff_ffff,
            forall|t: StateID| self.valid_state(t) ==> #[trigger] self.state_wf(t, num_lexemes as nat),
        ensures
            r == self.narrows(StateID(s as u32)),
    {
        let d = &self.states[s];
        proof {
            assert(self.state_wf(StateID(s as u32), num_lexemes as nat));
        }
        let mut b: usize = 0;
        while b < 256
            invariant
                b <= 256,
                s < self.states@.len(),
                self.states@.len() <= 0xffff_ffff,
                *d == self.states@[s as int],
                d.next@.len() == 256,
                forall|j: int| 0 <= j < 256 ==> self.valid_state(#[trigger] d.next@[j]),
                forall|j: int|
                    0 <= j < b ==> within(
                        self.states@[(#[trigger] d.next@[j]).0 as int].possible@,
                        d.possible@,
                    ),
            decreases 256 - b,
        {
            let to = d.next[b];
            assert(self.valid_state(d.next@[b as int]));
            if !self.states[to.as_usize()].possible.subset_of(&d.possible) {
                return false;
            }
            b += 1;
        }
        true
    }

    fn check_state(&self, s: usize, num_lexemes: usize) -> (r: bool)
        requires
            s < self.states@.len(),
            self.states@.len() <= 0xffff_ffff,
        ensures
            r == self.state_wf(StateID(s as u32), num_lexemes as nat),
    {
        let d = &self.states[s];
        if d.next.len() != 256 || d.possible.len() != num_lexemes {
            return false;
        }
        match d.accepting {
            Some(lx) => {
                if lx.0 >= num_lexemes {
                    return false;
                }
            },
            None => {},
        }
        let mut b: usize = 0;
        while b < 256
            invariant
                b <= 256,
                s < self.states@.len(),
                *d == self.states@[s as int],
                d.next@.len() == 256,
                forall|j: int| 0 <= j < b ==> self.valid_state(#[trigger] d.next@[j]),
            decreases 256 - b,
        {
            if d.next[b].as_usize() >= self.states.len() {
                return false;
            }
            b += 1;
        }
        true
    }

    fn check_dead(&self) -> (r: bool)
        requires
            1 <= self.states@.len(),
            self.states@[0].next@.len() == 256,
        ensures
            r == self.dead_wf(),
    {
        let d = &self.states[0];
        if d.accepting.is_some() || d.allows_eos || d.forced_end || !d.possible.is_zero() {
            return false;
        }
        let mut b: usize = 0;
        while b < 256
            invariant
                b <= 256,
                1 <= self.states@.len(),
                *d == self.states@[0],
                d.next@.len() == 256,
                forall|j: int| 0 <= j < b ==> #[trigger] d.next@[j] == StateID::dead_spec(),
            decreases 256 - b,
        {
            if d.next[b].0 != 0 {
                return false;
            }
            b += 1;
        }
        true
    }

    /// Decides whether the tables are usable by a lexer over `num_lexemes`
    /// classes.
    pub fn check(&self, num_lexemes: usize) -> (r: bool)
        ensures
            r == self.wf(num_lexemes as nat),
    {
        let n = self.states.len();
        if n < 1 || n > 0xffff_ffff {
            return false;
        }
        let mut s: usize = 0;
        while s < n
            invariant
                s <= n,
                n == self.states@.len(),
                1 <= n <= 0xffff_ffff,
                forall|t: StateID| t.0 < s ==> #[trigger] self.state_wf(t, num_lexemes as nat),
            decreases n - s,
        {
            if !self.check_state(s, num_lexemes) {
                assert(self.valid_state(StateID(s as u32)));
                return false;
            }
            s += 1;
        }
        assert(self.state_wf(StateID(0), num_lexemes as nat));
        if !self.check_dead() {
            return false;
        }
        let mut s2: usize = 0;
        while s2 < n
            invariant
                s2 <= n,
                n == self.states@.len(),
                1 <= n <= 0xffff_ffff,
                forall|t: StateID| self.valid_state(t) ==> #[trigger] self.state_wf(t, num_lexemes as nat),
                forall|t: StateID| t.0 < s2 ==> #[trigger] self.narrows(t),
            decreases n - s2,
        {
            if !self.check_narrows(s2, num_lexemes) {
                assert(self.valid_state(StateID(s2 as u32)));
                return false;
            }
            s2 += 1;
        }
        let mut i: usize = 0;
        while i < self.starts.len()
            invariant
                i <= self.starts@.len(),
                n == self.states@.len(),
                forall|j: int| 0 <= j < i ==> #[trigger] self.start_wf(j),
            decreases self.starts@.len() - i,
        {
            if self.starts[i].state.as_usize() >= n {
                assert(!self.start_wf(i as int));
                return false;
            }
            if !self.states[self.starts[i].state.as_usize()].possible.subset_of(&self.starts[i].allowed) {
                assert(!self.start_wf(i as int));
                return false;
            }
            i += 1;
        }
        let mut k: usize = 0;
        while k < self.limits.len()
            invariant
                k <= self.limits@.len(),
                n == self.states@.len(),
                forall|j: int| 0 <= j < k ==> self.valid_state((#[trigger] self.limits@[j]).to),
            decreases self.limits@.len() - k,
        {
            if self.limits[k].to.as_usize() >= n {
                return false;
            }
            k += 1;
        }
        true
    }
}

/// Why a lexer could not be built.
#[derive(Debug, Clone, Copy, PartialEq, Eq, Structural)]
pub enum LexerError {
    /// The automaton's tables name a state or a lexeme class that does not
    /// exist, or their dead state is not dead.
    InvalidTables,
    /// The lexer has no lexeme class, not even the skip class.
    NoLexemes,
}

/// Another handle to the same value: `Arc::clone` of the standard library,
/// which copies the pointer and leaves alone what it points to.
#[verifier::external_body]
pub(crate) fn share<T>(handle: &Arc<T>) -> (r: Arc<T>)
    ensures
        *r == **handle,
{
    Arc::clone(handle)
}

/// The first start entry for exactly the classes of `allowed`; the dead
/// state where there is none.
pub open spec fn lookup_start(starts: Seq<StartEntry>, allowed: Seq<bool>) -> StateID
    decreases starts.len(),
{
    if starts.len() == 0 {
        StateID::dead_spec()
    } else if starts[0].allowed@ == allowed {
        starts[0].state
    } else {
        lookup_start(starts.skip(1), allowed)
    }
}

/// The first limit entry for `from` and exactly the classes of `allowed`;
/// the dead state where there is none.
pub open spec fn lookup_limit(limits: Seq<LimitEntry>, from: StateID, allowed: Seq<bool>) -> StateID
    decreases limits.len(),
{
    if limits.len() == 0 {
        StateID::dead_spec()
    } else if limits[0].from == from && limits[0].allowed@ == allowed {
        limits[0].to
    } else {
        lookup_limit(limits.skip(1), from, allowed)
    }
}

/// A lookup in the start table gives a state of the automaton.
pub proof fn lemma_lookup_start_valid(dfa: Dfa, num_lexemes: nat, starts: Seq<StartEntry>, allowed: Seq<bool>)
    requires
        dfa.wf(num_lexemes),
        forall|i: int|
            0 <= i < starts.len() ==> dfa.valid_state((#[trigger] starts[i]).state) && within(
                dfa.states@[starts[i].state.0 as int].possible@,
                starts[i].allowed@,
            ),
    ensures
        dfa.valid_state(lookup_start(starts, allowed)),
        within(dfa.states@[lookup_start(starts, allowed).0 as int].possible@, allowed),
    decreases starts.len(),
{
    if starts.len() > 0 && starts[0].allowed@ != allowed {
        let rest = starts.skip(1);
        assert forall|i: int| 0 <= i < rest.len() implies dfa.valid_state((#[trigger] rest[i]).state)
            && within(dfa.states@[rest[i].state.0 as int].possible@, rest[i].allowed@) by {
            assert(rest[i] == starts[i + 1]);
        }
        lemma_lookup_start_valid(dfa, num_lexemes, rest, allowed);
    } else if starts.len() == 0 {
        assert(dfa.states@[0].possible.is_zero_spec());
    }
}

/// The tables' own start entries are as a lookup needs them.
pub proof fn lemma_starts_ok(dfa: Dfa, num_lexemes: nat)
    requires
        dfa.wf(num_lexemes),
    ensures
        forall|i: int|
            0 <= i < dfa.starts@.len() ==> dfa.valid_state((#[trigger] dfa.starts@[i]).state) && within(
                dfa.states@[dfa.starts@[i].state.0 as int].possible@,
                dfa.starts@[i].allowed@,
            ),
{
    assert forall|i: int| 0 <= i < dfa.starts@.len() implies dfa.valid_state(
        (#[trigger] dfa.starts@[i]).state,
    ) && within(dfa.states@[dfa.starts@[i].state.0 as int].possible@, dfa.starts@[i].allowed@) by {
        assert(dfa.start_wf(i));
    }
}

/// A lookup in the limit table gives a state of the automaton.
pub proof fn lemma_lookup_limit_valid(
    dfa: Dfa,
    num_lexemes: nat,
    limits: Seq<LimitEntry>,
    from: StateID,
    allowed: Seq<bool>,
)
    requires
        dfa.wf(num_lexemes),
        forall|i: int| 0 <= i < limits.len() ==> dfa.valid_state((#[trigger] limits[i]).to),
    ensures
        dfa.valid_state(lookup_limit(limits, from, allowed)),
    decreases limits.len(),
{
    if limits.len() > 0 && !(limits[0].from == from && limits[0].allowed@ == allowed) {
        let rest = limits.skip(1);
        assert forall|i: int| 0 <= i < rest.len() implies dfa.valid_state((#[trigger] rest[i]).to) by {
            assert(rest[i] == limits[i + 1]);
        }
        lemma_lookup_limit_valid(dfa, num_lexemes, rest, from, allowed);
    }
}

/// The lexer. It reads the automaton's tables and decides where lexemes end:
/// a greedy lexer at the first byte that cannot extend the match, a lazy one
/// as soon as the bytes match.
pub struct Lexer {
    pub(crate) dfa: Arc<Dfa>,
    pub(crate) greedy: bool,
    pub(crate) num_lexemes: usize,
}

impl Lexer {
    pub closed spec fn dfa_view(&self) -> Dfa {
        *self.dfa
    }

    pub closed spec fn greedy_spec(&self) -> bool {
        self.greedy
    }

    pub closed spec fn num_lexemes_spec(&self) -> nat {
        self.num_lexemes as nat
    }

    pub open spec fn wf(&self) -> bool {
        self.num_lexemes_spec() >= 1 && self.dfa_view().wf(self.num_lexemes_spec())
    }

    pub open spec fn valid_state(&self, s: StateID) -> bool {
        self.dfa_view().valid_state(s)
    }

    pub open spec fn desc(&self, s: StateID) -> StateDesc {
        self.dfa_view().states@[s.0 as int]
    }

    /// The automaton's move from `s` on `b`.
    pub open spec fn transition(&self, s: StateID, b: u8) -> StateID {
        self.desc(s).next@[b as int]
    }

    /// No lexeme of this lexer hides a byte.
    pub open spec fn hides_nothing(&self) -> bool {
        forall|s: StateID| self.valid_state(s) ==> (#[trigger] self.desc(s)).accepting_hidden_len == 0
    }

    /// A lexer that hides nothing reports no lexeme with a hidden byte.
    pub proof fn lemma_hides_nothing(&self, prev: StateID, byte: u8)
        requires
            self.wf(),
            self.valid_state(prev),
            self.hides_nothing(),
        ensures
            self.advance_spec(prev, byte) matches LexerResult::Lexeme(pre) ==> pre.hidden_len == 0,
    {
        assert(self.dfa_view().state_wf(prev, self.num_lexemes_spec()));
        let state = self.transition(prev, byte);
        assert(self.valid_state(state));
        assert(self.desc(state).accepting_hidden_len == 0);
    }

    /// The lexeme that ends without a byte of its own.
    pub open spec fn ended(idx: LexemeIdx) -> LexerResult {
        LexerResult::Lexeme(PreLexeme { idx, byte: None, byte_next_row: false, hidden_len: 0 })
    }

    pub open spec fn start_state_spec(&self, allowed: Seq<bool>, first_byte: Option<u8>) -> StateID {
        let s = lookup_start(self.dfa_view().starts@, allowed);
        match first_byte {
            Some(b) => self.transition(s, b),
            None => s,
        }
    }

    pub open spec fn advance_spec(&self, prev: StateID, byte: u8) -> LexerResult {
        let state = self.transition(prev, byte);
        if state == StateID::dead_spec() {
            if !self.greedy_spec() {
                LexerResult::Error
            } else {
                match self.desc(prev).accepting {
                    Some(idx) => LexerResult::Lexeme(
                        PreLexeme { idx, byte: Some(byte), byte_next_row: true, hidden_len: 0 },
                    ),
                    None => LexerResult::Error,
                }
            }
        } else if self.greedy_spec() {
            LexerResult::State(state, byte)
        } else {
            match self.desc(state).accepting {
                Some(idx) => LexerResult::Lexeme(
                    PreLexeme {
                        idx,
                        byte: Some(byte),
                        byte_next_row: false,
                        hidden_len: self.desc(state).accepting_hidden_len,
                    },
                ),
                None => LexerResult::State(state, byte),
            }
        }
    }

    pub open spec fn try_lexeme_end_spec(&self, prev: StateID) -> LexerResult {
        match self.desc(prev).accepting {
            Some(idx) => Self::ended(idx),
            None => LexerResult::Error,
        }
    }

    pub open spec fn force_lexeme_end_spec(&self, prev: StateID) -> LexerResult {
        match self.desc(prev).possible.first_bit_spec() {
            Some(idx) => Self::ended(LexemeIdx(idx)),
            None => LexerResult::Error,
        }
    }

    pub open spec fn check_for_single_byte_lexeme_spec(&self, state: StateID, b: u8) -> Option<PreLexeme> {
        if self.desc(state).forced_end {
            match self.desc(state).possible.first_bit_spec() {
                Some(idx) => Some(
                    PreLexeme { idx: LexemeIdx(idx), byte: Some(b), byte_next_row: false, hidden_len: 0 },
                ),
                None => None,
            }
        } else {
            None
        }
    }

    pub open spec fn limit_state_to_spec(&self, state: StateID, allowed: Seq<bool>) -> StateID {
        lookup_limit(self.dfa_view().limits@, state, allowed)
    }

    /// Every lexeme class that is possible in the start state for `allowed`
    /// is a class of `allowed`, also after a first byte.
    pub proof fn lemma_start_possible(&self, allowed: Seq<bool>, first_byte: Option<u8>)
        requires
            self.wf(),
        ensures
            self.valid_state(self.start_state_spec(allowed, first_byte)),
            within(self.desc(self.start_state_spec(allowed, first_byte)).possible@, allowed),
    {
        let dfa = self.dfa_view();
        lemma_starts_ok(dfa, self.num_lexemes_spec());
        lemma_lookup_start_valid(dfa, self.num_lexemes_spec(), dfa.starts@, allowed);
        let s = lookup_start(dfa.starts@, allowed);
        match first_byte {
            Some(b) => {
                assert(dfa.state_wf(s, self.num_lexemes_spec()));
                assert(dfa.narrows(s));
                let to = dfa.states@[s.0 as int].next@[b as int];
                assert(within(dfa.states@[to.0 as int].possible@, dfa.states@[s.0 as int].possible@));
                assert forall|i: int|
                    0 <= i < dfa.states@[to.0 as int].possible@.len()
                        && #[trigger] dfa.states@[to.0 as int].possible@[i] implies i < allowed.len()
                    && allowed[i] by {
                    assert(dfa.states@[s.0 as int].possible@[i]);
                }
            },
            None => {},
        }
    }

    /// Only a lazy lexer reports hidden bytes, and a lexeme that is reported
    /// on a byte carries that byte.
    pub proof fn lemma_advance_shape(&self, prev: StateID, byte: u8)
        ensures
            self.advance_spec(prev, byte) matches LexerResult::Lexeme(pre) ==> {
                &&& pre.byte == Some(byte)
                &&& (pre.hidden_len > 0 ==> !self.greedy_spec() && !pre.byte_next_row)
                &&& pre.byte_next_row == self.greedy_spec()
            },
            self.advance_spec(prev, byte) matches LexerResult::State(s, b) ==> b == byte && s
                != StateID::dead_spec(),
    {
    }

    /// The lexer for `spec`, or an error where the tables of `spec` cannot
    /// be used.
    pub fn from(spec: &LexerSpec) -> (r: Result<Lexer, LexerError>)
        ensures
            r is Ok <==> spec.lexemes@.len() >= 1 && spec.dfa.wf(spec.lexemes@.len()),
            r matches Err(e) ==> (e == LexerError::NoLexemes <==> spec.lexemes@.len() == 0),
            r matches Ok(lexer) ==> {
                &&& lexer.wf()
                &&& lexer.dfa_view() == *spec.dfa
                &&& lexer.greedy_spec() == spec.greedy
                &&& lexer.num_lexemes_spec() == spec.lexemes@.len()
            },
    {
        if spec.lexemes.len() == 0 {
            return Err(LexerError::NoLexemes);
        }
        if !spec.dfa.check(spec.lexemes.len()) {
            return Err(LexerError::InvalidTables);
        }
        Ok(Lexer { dfa: share(&spec.dfa), greedy: spec.greedy, num_lexemes: spec.lexemes.len() })
    }

    /// The state in which no byte is accepted.
    pub fn a_dead_state(&self) -> (r: StateID)
        ensures
            r == StateID::dead_spec(),
    {
        StateID(0)
    }

    fn state_desc(&self, state: StateID) -> (r: &StateDesc)
        requires
            self.wf(),
            self.valid_state(state),
        ensures
            *r == self.desc(state),
    {
        &self.dfa.states[state.as_usize()]
    }

    fn raw_transition(&self, state: StateID, b: u8) -> (r: StateID)
        requires
            self.wf(),
            self.valid_state(state),
        ensures
            r == self.transition(state, b),
            self.valid_state(r),
    {
        proof {
            assert(self.dfa_view().state_wf(state, self.num_lexemes_spec()));
        }
        self.dfa.states[state.as_usize()].next[b as usize]
    }

    fn find_start(&self, allowed_lexemes: &LexemeSet) -> (r: StateID)
        requires
            self.wf(),
        ensures
            r == lookup_start(self.dfa_view().starts@, allowed_lexemes@),
            self.valid_state(r),
    {
        let mut i: usize = 0;
        proof {
            assert(self.dfa_view().starts@.skip(0) =~= self.dfa_view().starts@);
            lemma_starts_ok(self.dfa_view(), self.num_lexemes_spec());
            lemma_lookup_start_valid(
                self.dfa_view(),
                self.num_lexemes_spec(),
                self.dfa_view().starts@,
                allowed_lexemes@,
            );
        }
        while i < self.dfa.starts.len()
            invariant
                self.wf(),
                i <= self.dfa_view().starts@.len(),
                self.valid_state(lookup_start(self.dfa_view().starts@, allowed_lexemes@)),
                lookup_start(self.dfa_view().starts@, allowed_lexemes@) == lookup_start(
                    self.dfa_view().starts@.skip(i as int),
                    allowed_lexemes@,
                ),
            decreases self.dfa_view().starts@.len() - i,
        {
            proof {
                let rest = self.dfa_view().starts@.skip(i as int);
                assert(rest[0] == self.dfa_view().starts@[i as int]);
                assert(rest.skip(1) =~= self.dfa_view().starts@.skip(i + 1));
            }
            if self.dfa.starts[i].allowed.same(allowed_lexemes) {
                proof {
                    assert(self.dfa_view().start_wf(i as int));
                }
                return self.dfa.starts[i].state;
            }
            i += 1;
        }
        StateID(0)
    }

    /// The state from which the lexemes of `allowed_lexemes` are looked for,
    /// after `first_byte` where one is given.
    pub fn start_state(&self, allowed_lexemes: &LexemeSet, first_byte: Option<u8>) -> (r: StateID)
        requires
            self.wf(),
        ensures
            r == self.start_state_spec(allowed_lexemes@, first_byte),
            self.valid_state(r),
    {
        let found = self.find_start(allowed_lexemes);
        match first_byte {
            Some(b) => self.raw_transition(found, b),
            None => found,
        }
    }

    /// Feeds one byte to the lexer.
    pub fn advance(&self, prev: StateID, byte: u8, enable_logging: bool) -> (r: LexerResult)
        requires
            self.wf(),
            self.valid_state(prev),
        ensures
            r == self.advance_spec(prev, byte),
            r matches LexerResult::State(s, _) ==> self.valid_state(s),
    {
        let state = self.raw_transition(prev, byte);
        if state.is_dead() {
            if !self.greedy {
                return LexerResult::Error;
            }
            match self.state_desc(prev).accepting {
                Some(idx) => LexerResult::Lexeme(
                    PreLexeme { idx, byte: Some(byte), byte_next_row: true, hidden_len: 0 },
                ),
                None => LexerResult::Error,
            }
        } else if self.greedy {
            LexerResult::State(state, byte)
        } else {
            let info = self.state_desc(state);
            match info.accepting {
                Some(idx) => LexerResult::Lexeme(
                    PreLexeme {
                        idx,
                        byte: Some(byte),
                        byte_next_row: false,
                        hidden_len: info.accepting_hidden_len,
                    },
                ),
                None => LexerResult::State(state, byte),
            }
        }
    }

    /// Ends the lexeme here if the bytes read so far match one.
    pub fn try_lexeme_end(&self, prev: StateID) -> (r: LexerResult)
        requires
            self.wf(),
            self.valid_state(prev),
        ensures
            r == self.try_lexeme_end_spec(prev),
    {
        match self.state_desc(prev).accepting {
            Some(idx) => LexerResult::Lexeme(
                PreLexeme { idx, byte: None, byte_next_row: false, hidden_len: 0 },
            ),
            None => LexerResult::Error,
        }
    }

    /// Ends the lexeme here as the first class that is still possible.
    pub fn force_lexeme_end(&self, prev: StateID) -> (r: LexerResult)
        requires
            self.wf(),
            self.valid_state(prev),
        ensures
            r == self.force_lexeme_end_spec(prev),
    {
        match self.state_desc(prev).possible.first_bit_set() {
            Some(idx) => LexerResult::Lexeme(
                PreLexeme { idx: LexemeIdx(idx), byte: None, byte_next_row: false, hidden_len: 0 },
            ),
            None => LexerResult::Error,
        }
    }

    pub fn allows_eos(&self, state: StateID) -> (r: bool)
        requires
            self.wf(),
            self.valid_state(state),
        ensures
            r == self.desc(state).allows_eos,
    {
        self.state_desc(state).allows_eos
    }

    /// The lexeme classes that a continuation from `state` can still match.
    pub fn possible_lexemes(&self, state: StateID) -> (r: &LexemeSet)
        requires
            self.wf(),
            self.valid_state(state),
        ensures
            *r == self.desc(state).possible,
            r@.len() == self.num_lexemes_spec(),
    {
        proof {
            assert(self.dfa_view().state_wf(state, self.num_lexemes_spec()));
        }
        &self.state_desc(state).possible
    }

    pub fn possible_hidden_len(&self, state: StateID) -> (r: usize)
        requires
            self.wf(),
            self.valid_state(state),
        ensures
            r == self.desc(state).possible_hidden_len,
    {
        self.state_desc(state).possible_hidden_len
    }

    /// The state that stands for `state` once only `allowed_lexemes` remain.
    pub fn limit_state_to(&self, state: StateID, allowed_lexemes: &LexemeSet) -> (r: StateID)
        requires
            self.wf(),
        ensures
            r == self.limit_state_to_spec(state, allowed_lexemes@),
            self.valid_state(r),
    {
        let mut i: usize = 0;
        proof {
            assert(self.dfa_view().limits@.skip(0) =~= self.dfa_view().limits@);
            lemma_lookup_limit_valid(
                self.dfa_view(),
                self.num_lexemes_spec(),
                self.dfa_view().limits@,
                state,
                allowed_lexemes@,
            );
        }
        while i < self.dfa.limits.len()
            invariant
                self.wf(),
                i <= self.dfa_view().limits@.len(),
                self.valid_state(lookup_limit(self.dfa_view().limits@, state, allowed_lexemes@)),
                lookup_limit(self.dfa_view().limits@, state, allowed_lexemes@) == lookup_limit(
                    self.dfa_view().limits@.skip(i as int),
                    state,
                    allowed_lexemes@,
                ),
            decreases self.dfa_view().limits@.len() - i,
        {
            proof {
                let rest = self.dfa_view().limits@.skip(i as int);
                assert(rest[0] == self.dfa_view().limits@[i as int]);
                assert(rest.skip(1) =~= self.dfa_view().limits@.skip(i + 1));
            }
            if self.dfa.limits[i].from == state && self.dfa.limits[i].allowed.same(allowed_lexemes) {
                return self.dfa.limits[i].to;
            }
            i += 1;
        }
        StateID(0)
    }

    /// Where the match in `state` is over, the lexeme that `b` was the one
    /// byte of.
    pub fn check_for_single_byte_lexeme(&self, state: StateID, b: u8) -> (r: Option<PreLexeme>)
        requires
            self.wf(),
            self.valid_state(state),
        ensures
            r == self.check_for_single_byte_lexeme_spec(state, b),
            r matches Some(pre) ==> !pre.byte_next_row && pre.hidden_len == 0,
    {
        let info = self.state_desc(state);
        if info.forced_end {
            match info.possible.first_bit_set() {
                Some(idx) => Some(
                    PreLexeme { idx: LexemeIdx(idx), byte: Some(b), byte_next_row: false, hidden_len: 0 },
                ),
                None => None,
            }
        } else {
            None
        }
    }
}

} // verus!
