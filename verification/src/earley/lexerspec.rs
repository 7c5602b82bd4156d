//! Lexemes, sets of lexemes, and the static description of a lexer.

use vstd::prelude::*;
use std::sync::Arc;
use crate::earley::lexer::Dfa;

verus! {

/// Index of a lexeme class in a [`LexerSpec`].
#[derive(Debug, Clone, Copy, PartialEq, Eq, Structural, Hash)]
pub struct LexemeIdx(pub usize);

impl LexemeIdx {
    /// The class reserved for whitespace-like input that never moves a grammar rule.
    pub open spec fn skip_spec() -> LexemeIdx {
        LexemeIdx(0)
    }

    /// The class reserved for whitespace-like input that never moves a grammar rule.
    pub fn skip() -> (r: LexemeIdx)
        ensures
            r == Self::skip_spec(),
    {
        LexemeIdx(0)
    }

    pub fn new(idx: usize) -> (r: LexemeIdx)
        ensures
            r.0 == idx,
    {
        LexemeIdx(idx)
    }

    pub fn as_usize(&self) -> (r: usize)
        ensures
            r == self.0,
    {
        self.0
    }
}

/// A set of lexeme classes, stored as one flag per class.
#[derive(Debug)]
pub struct LexemeSet {
    pub bits: Vec<bool>,
}

impl View for LexemeSet {
    type V = Seq<bool>;

    open spec fn view(&self) -> Seq<bool> {
        self.bits@
    }
}

/// Whether every member of `a` is a member of `b`.
pub open spec fn within(a: Seq<bool>, b: Seq<bool>) -> bool {
    forall|i: int| 0 <= i < a.len() && #[trigger] a[i] ==> i < b.len() && b[i]
}

impl LexemeSet {
    /// Whether every member of this set is a member of `other`.
    pub fn subset_of(&self, other: &LexemeSet) -> (r: bool)
        ensures
            r == within(self@, other@),
    {
        let mut i: usize = 0;
        while i < self.bits.len()
            invariant
                i <= self.bits@.len(),
                forall|j: int| 0 <= j < i && #[trigger] self@[j] ==> j < other@.len() && other@[j],
            decreases self.bits@.len() - i,
        {
            if self.bits[i] && !other.get(i) {
                assert(self@[i as int]);
                return false;
            }
            i += 1;
        }
        true
    }

    /// Whether class `i` is a member.
    pub open spec fn contains(&self, i: int) -> bool {
        0 <= i < self@.len() && self@[i]
    }

    /// Whether no class is a member.
    pub open spec fn is_zero_spec(&self) -> bool {
        forall|i: int| 0 <= i < self@.len() ==> !self@[i]
    }

    /// The least index at or after `from` whose flag is set; the length where
    /// there is none.
    pub open spec fn lowest_from(bits: Seq<bool>, from: int) -> int
        decreases bits.len() - from,
    {
        if from < 0 || from >= bits.len() {
            bits.len() as int
        } else if bits[from] {
            from
        } else {
            Self::lowest_from(bits, from + 1)
        }
    }

    /// The smallest member, if there is one.
    pub open spec fn first_bit_spec(&self) -> Option<usize> {
        let low = Self::lowest_from(self@, 0);
        if low < self@.len() {
            Some(low as usize)
        } else {
            None
        }
    }

    /// The smallest member is a member, and nothing below it is.
    pub proof fn lemma_lowest(bits: Seq<bool>, from: int)
        requires
            0 <= from <= bits.len(),
        ensures
            from <= Self::lowest_from(bits, from) <= bits.len(),
            Self::lowest_from(bits, from) < bits.len() ==> bits[Self::lowest_from(bits, from)],
            forall|j: int| from <= j < Self::lowest_from(bits, from) ==> !bits[j],
        decreases bits.len() - from,
    {
        if from < bits.len() && !bits[from] {
            Self::lemma_lowest(bits, from + 1);
        }
    }

    /// The empty set over `n` classes.
    pub fn new(n: usize) -> (r: LexemeSet)
        ensures
            r@.len() == n,
            r.is_zero_spec(),
    {
        let mut bits: Vec<bool> = Vec::new();
        let mut i: usize = 0;
        while i < n
            invariant
                i <= n,
                bits@.len() == i,
                forall|j: int| 0 <= j < i ==> !bits@[j],
            decreases n - i,
        {
            bits.push(false);
            i += 1;
        }
        LexemeSet { bits }
    }

    /// Number of classes the set ranges over.
    pub fn len(&self) -> (r: usize)
        ensures
            r == self@.len(),
    {
        self.bits.len()
    }

    /// Membership test; classes beyond the range are never members.
    pub fn get(&self, idx: usize) -> (r: bool)
        ensures
            r == self.contains(idx as int),
    {
        idx < self.bits.len() && self.bits[idx]
    }

    /// Adds or removes one class.
    pub fn set(&mut self, idx: usize, val: bool)
        requires
            idx < old(self)@.len(),
        ensures
            final(self)@ == old(self)@.update(idx as int, val),
    {
        self.bits[idx] = val;
    }

    pub fn is_zero(&self) -> (r: bool)
        ensures
            r == self.is_zero_spec(),
    {
        let mut i: usize = 0;
        while i < self.bits.len()
            invariant
                i <= self.bits@.len(),
                forall|j: int| 0 <= j < i ==> !self.bits@[j],
            decreases self.bits@.len() - i,
        {
            if self.bits[i] {
                assert(self@[i as int]);
                return false;
            }
            i += 1;
        }
        true
    }

    /// The smallest member, if there is one.
    pub fn first_bit_set(&self) -> (r: Option<usize>)
        ensures
            r == self.first_bit_spec(),
            r is None <==> self.is_zero_spec(),
            r matches Some(i) ==> self.contains(i as int),
    {
        let mut i: usize = 0;
        while i < self.bits.len()
            invariant
                i <= self.bits@.len(),
                forall|j: int| 0 <= j < i ==> !self.bits@[j],
                Self::lowest_from(self@, 0) == Self::lowest_from(self@, i as int),
            decreases self.bits@.len() - i,
        {
            if self.bits[i] {
                assert(self@[i as int]);
                return Some(i);
            }
            i += 1;
        }
        None
    }

    /// An independent copy with the same members.
    pub fn copy(&self) -> (r: LexemeSet)
        ensures
            r@ == self@,
    {
        let mut bits: Vec<bool> = Vec::new();
        let mut i: usize = 0;
        while i < self.bits.len()
            invariant
                i <= self.bits@.len(),
                bits@ == self.bits@.take(i as int),
            decreases self.bits@.len() - i,
        {
            bits.push(self.bits[i]);
            i += 1;
        }
        assert(self.bits@.take(self.bits@.len() as int) == self.bits@);
        LexemeSet { bits }
    }

    /// Whether both sets range over the same classes and have the same members.
    pub fn same(&self, other: &LexemeSet) -> (r: bool)
        ensures
            r == (self@ == other@),
    {
        if self.bits.len() != other.bits.len() {
            return false;
        }
        let mut i: usize = 0;
        while i < self.bits.len()
            invariant
                i <= self.bits@.len(),
                self.bits@.len() == other.bits@.len(),
                forall|j: int| 0 <= j < i ==> self.bits@[j] == other.bits@[j],
            decreases self.bits@.len() - i,
        {
            if self.bits[i] != other.bits[i] {
                return false;
            }
            i += 1;
        }
        assert(self@ =~= other@);
        true
    }
}

impl Clone for LexemeSet {
    fn clone(&self) -> (r: LexemeSet)
        ensures
            r@ == self@,
    {
        self.copy()
    }
}

/// A lexeme produced by the lexer: its class, its bytes, and how many of its
/// trailing bytes are lookahead that belongs to what follows.
#[derive(Debug)]
pub struct Lexeme {
    pub idx: LexemeIdx,
    pub bytes: Vec<u8>,
    pub hidden_len: usize,
}

impl Lexeme {
    /// The hidden suffix is part of the bytes.
    pub open spec fn wf(&self) -> bool {
        self.hidden_len <= self.bytes@.len()
    }

    pub open spec fn visible_bytes_spec(&self) -> Seq<u8> {
        self.bytes@.take(self.bytes@.len() - self.hidden_len)
    }

    pub open spec fn hidden_bytes_spec(&self) -> Seq<u8> {
        self.bytes@.skip(self.bytes@.len() - self.hidden_len)
    }

    pub open spec fn is_bogus_spec(&self) -> bool {
        self.idx.0 == 0 && self.bytes@.len() == 0
    }

    pub fn new(idx: LexemeIdx, bytes: Vec<u8>, hidden_len: usize) -> (r: Lexeme)
        requires
            hidden_len <= bytes@.len(),
        ensures
            r.idx == idx,
            r.bytes@ == bytes@,
            r.hidden_len == hidden_len,
            r.wf(),
    {
        Lexeme { idx, bytes, hidden_len }
    }

    /// A lexeme of class `idx` that carries no bytes.
    pub fn just_idx(idx: LexemeIdx) -> (r: Lexeme)
        ensures
            r.idx == idx,
            r.bytes@.len() == 0,
            r.hidden_len == 0,
            r.wf(),
    {
        Lexeme { idx, bytes: Vec::new(), hidden_len: 0 }
    }

    /// The placeholder used for rows that no lexeme was scanned into.
    pub fn bogus() -> (r: Lexeme)
        ensures
            r.is_bogus_spec(),
            r.hidden_len == 0,
            r.wf(),
    {
        Lexeme::just_idx(LexemeIdx(0))
    }

    pub fn is_bogus(&self) -> (r: bool)
        ensures
            r == self.is_bogus_spec(),
    {
        self.idx.0 == 0 && self.bytes.len() == 0
    }

    pub fn num_hidden_bytes(&self) -> (r: usize)
        ensures
            r == self.hidden_len,
    {
        self.hidden_len
    }

    pub fn num_visible_bytes(&self) -> (r: usize)
        requires
            self.wf(),
        ensures
            r == self.visible_bytes_spec().len(),
    {
        self.bytes.len() - self.hidden_len
    }

    /// The bytes that count as consumed by this lexeme.
    pub fn visible_bytes(&self) -> (r: Vec<u8>)
        requires
            self.wf(),
        ensures
            r@ == self.visible_bytes_spec(),
    {
        let n: usize = self.bytes.len() - self.hidden_len;
        let mut out: Vec<u8> = Vec::new();
        let mut i: usize = 0;
        while i < n
            invariant
                i <= n,
                n == self.bytes@.len() - self.hidden_len,
                out@ == self.bytes@.take(i as int),
            decreases n - i,
        {
            out.push(self.bytes[i]);
            i += 1;
        }
        out
    }

    /// The lookahead bytes that the following lexemes have to match again.
    pub fn hidden_bytes(&self) -> (r: Vec<u8>)
        requires
            self.wf(),
        ensures
            r@ == self.hidden_bytes_spec(),
    {
        let start: usize = self.bytes.len() - self.hidden_len;
        let mut out: Vec<u8> = Vec::new();
        let mut i: usize = start;
        while i < self.bytes.len()
            invariant
                start <= i <= self.bytes@.len(),
                start == self.bytes@.len() - self.hidden_len,
                out@ == self.bytes@.subrange(start as int, i as int),
            decreases self.bytes@.len() - i,
        {
            out.push(self.bytes[i]);
            i += 1;
        }
        out
    }

    /// An independent copy.
    pub fn copy(&self) -> (r: Lexeme)
        ensures
            r.idx == self.idx,
            r.bytes@ == self.bytes@,
            r.hidden_len == self.hidden_len,
    {
        Lexeme { idx: self.idx, bytes: self.bytes.clone(), hidden_len: self.hidden_len }
    }
}

impl Clone for Lexeme {
    fn clone(&self) -> (r: Lexeme)
        ensures
            r.idx == self.idx,
            r.bytes@ == self.bytes@,
            r.hidden_len == self.hidden_len,
    {
        self.copy()
    }
}

/// What the parser has to know of one lexeme class.
#[derive(Debug)]
pub struct LexemeSpec {
    pub name: String,
    /// The exact bytes of the class, where it matches one byte string only.
    pub literal: Option<Vec<u8>>,
}

impl LexemeSpec {
    pub open spec fn has_forced_bytes_spec(&self, bytes: Seq<u8>) -> bool {
        match self.literal {
            Some(lit) => bytes.is_prefix_of(lit@),
            None => false,
        }
    }

    /// Whether every match of this class begins with `bytes`.
    pub fn has_forced_bytes(&self, bytes: &Vec<u8>) -> (r: bool)
        ensures
            r == self.has_forced_bytes_spec(bytes@),
    {
        match &self.literal {
            Some(lit) => {
                if bytes.len() > lit.len() {
                    return false;
                }
                let mut i: usize = 0;
                while i < bytes.len()
                    invariant
                        i <= bytes@.len() <= lit@.len(),
                        self.literal == Some(*lit),
                        forall|j: int| 0 <= j < i ==> bytes@[j] == lit@[j],
                    decreases bytes@.len() - i,
                {
                    if bytes[i] != lit[i] {
                        assert(!bytes@.is_prefix_of(lit@)) by {
                            if bytes@.is_prefix_of(lit@) {
                                assert(bytes@[i as int] == lit@.subrange(0, bytes@.len() as int)[i as int]);
                            }
                        }
                        return false;
                    }
                    i += 1;
                }
                assert(bytes@ =~= lit@.subrange(0, bytes@.len() as int));
                true
            },
            None => false,
        }
    }
}

/// The static description of a lexer: its lexeme classes and how it ends
/// a lexeme.
#[derive(Debug)]
pub struct LexerSpec {
    /// A greedy lexer ends a lexeme at the first byte that cannot extend it;
    /// a lazy one ends it as soon as it matches.
    pub greedy: bool,
    pub lexemes: Vec<LexemeSpec>,
    /// The automaton that recognizes the classes, as compiled tables.
    pub dfa: Arc<Dfa>,
}

impl LexerSpec {
    /// An empty set over the lexeme classes of this lexer.
    pub fn alloc_lexeme_set(&self) -> (r: LexemeSet)
        ensures
            r@.len() == self.lexemes@.len(),
            r.is_zero_spec(),
    {
        LexemeSet::new(self.lexemes.len())
    }
}

} // verus!
