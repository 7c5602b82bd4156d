//! Earley items and the scratch space in which rows are built.

use vstd::prelude::*;
use crate::earley::grammar::RuleIdx;
use crate::earley::lexerspec::LexemeSet;

verus! {

/// An Earley item: a position in the rule array (a rule with a dot) in the
/// low 32 bits, and the row in which the rule was predicted in the high 32.
#[derive(Debug, Clone, Copy, PartialEq, Eq, Structural, Hash)]
pub struct Item {
    pub data: u64,
}

impl Item {
    /// The item made of a rule position and an origin row.
    pub open spec fn spec_new(rule: RuleIdx, start: nat) -> Item {
        Item { data: (start * 0x1_0000_0000 + rule.0) as u64 }
    }

    pub open spec fn rule_spec(&self) -> RuleIdx {
        RuleIdx((self.data % 0x1_0000_0000) as u32)
    }

    pub open spec fn start_spec(&self) -> nat {
        (self.data / 0x1_0000_0000) as nat
    }

    /// The same rule with the dot moved over one symbol.
    pub open spec fn advance_spec(&self) -> Item {
        Item { data: (self.data + 1) as u64 }
    }

    /// An item is known by its rule position and its origin.
    pub proof fn lemma_parts(rule: RuleIdx, start: nat)
        requires
            start < 0x1_0000_0000,
        ensures
            Self::spec_new(rule, start).rule_spec() == rule,
            Self::spec_new(rule, start).start_spec() == start,
    {
    }

    /// Two items with the same rule position and origin are the same item.
    pub proof fn lemma_identity(a: Item, b: Item)
        requires
            a.rule_spec() == b.rule_spec(),
            a.start_spec() == b.start_spec(),
        ensures
            a == b,
    {
    }

    /// Moving the dot keeps the origin and takes the next rule position.
    pub proof fn lemma_advance(a: Item)
        requires
            a.rule_spec().0 < 0xffff_ffff,
        ensures
            a.advance_spec().rule_spec().0 == a.rule_spec().0 + 1,
            a.advance_spec().start_spec() == a.start_spec(),
            a.advance_spec() == Self::spec_new(
                RuleIdx((a.rule_spec().0 + 1) as u32),
                a.start_spec(),
            ),
    {
    }

    /// The item that fills a slot before anything is written to it.
    pub open spec fn null_spec() -> Item {
        Item { data: 0 }
    }

    pub fn null() -> (r: Item)
        ensures
            r == Self::null_spec(),
    {
        Item { data: 0 }
    }

    pub fn new(rule: RuleIdx, start: usize) -> (r: Item)
        requires
            start < 0x1_0000_0000,
        ensures
            r == Self::spec_new(rule, start as nat),
            r.rule_spec() == rule,
            r.start_spec() == start,
    {
        let r64: u64 = rule.0 as u64;
        let s64: u64 = start as u64;
        let data: u64 = r64 | (s64 << 32);
        assert(data == s64 * 0x1_0000_0000 + r64) by (bit_vector)
            requires
                r64 < 0x1_0000_0000,
                s64 < 0x1_0000_0000,
                data == r64 | (s64 << 32),
        ;
        Item { data }
    }

    pub fn rule_idx(&self) -> (r: RuleIdx)
        ensures
            r == self.rule_spec(),
    {
        let data: u64 = self.data;
        let low: u32 = #[verifier::truncate] (data as u32);
        assert(low == data % 0x1_0000_0000) by (bit_vector)
            requires
                low == data as u32,
        ;
        RuleIdx::from_index(low)
    }

    pub fn start_pos(&self) -> (r: usize)
        ensures
            r == self.start_spec(),
    {
        let data: u64 = self.data;
        let high: u64 = data >> 32;
        assert(high == data / 0x1_0000_0000 && high < 0x1_0000_0000) by (bit_vector)
            requires
                high == data >> 32,
        ;
        high as usize
    }

    pub fn advance_dot(&self) -> (r: Item)
        requires
            self.rule_spec().0 < 0xffff_ffff,
        ensures
            r == self.advance_spec(),
    {
        Item { data: self.data + 1 }
    }
}

/// Per-item bookkeeping that is kept for committed rows only.
#[derive(Debug, Clone, Copy, PartialEq, Eq, Structural)]
pub struct ItemProps {
    /// Index of the byte at which hidden lookahead begins; `usize::MAX` for none.
    pub hidden_start: usize,
}

impl ItemProps {
    pub fn new() -> (r: ItemProps)
        ensures
            r.hidden_start == usize::MAX,
    {
        ItemProps { hidden_start: usize::MAX }
    }

    /// Keeps the earlier of the two hidden starts.
    pub fn merge(&mut self, other: ItemProps)
        ensures
            final(self).hidden_start == (if old(self).hidden_start <= other.hidden_start {
                old(self).hidden_start
            } else {
                other.hidden_start
            }),
    {
        if other.hidden_start < self.hidden_start {
            self.hidden_start = other.hidden_start;
        }
    }
}

impl Default for ItemProps {
    fn default() -> (r: ItemProps)
        ensures
            r.hidden_start == usize::MAX,
    {
        ItemProps { hidden_start: usize::MAX }
    }
}

/// One Earley row: a range of the scratch item array, and the lexeme classes
/// that may follow it.
#[derive(Debug)]
pub struct Row {
    pub first_item: usize,
    pub last_item: usize,
    pub allowed_lexemes: LexemeSet,
}

impl Row {
    pub fn item_indices(&self) -> (r: core::ops::Range<usize>)
        ensures
            r.start == self.first_item,
            r.end == self.last_item,
    {
        self.first_item..self.last_item
    }

    pub fn copy(&self) -> (r: Row)
        ensures
            r.first_item == self.first_item,
            r.last_item == self.last_item,
            r.allowed_lexemes@ == self.allowed_lexemes@,
    {
        Row {
            first_item: self.first_item,
            last_item: self.last_item,
            allowed_lexemes: self.allowed_lexemes.copy(),
        }
    }
}

/// Whether position `k` is the first at which `row` holds `item`.
pub open spec fn first_at(row: Seq<Item>, item: Item, k: int) -> bool {
    &&& 0 <= k < row.len()
    &&& row[k] == item
    &&& forall|j: int| 0 <= j < k ==> row[j] != item
}

/// The earlier of two hidden starts.
pub open spec fn earlier(a: ItemProps, b: ItemProps) -> ItemProps {
    if a.hidden_start <= b.hidden_start {
        a
    } else {
        b
    }
}

/// The bookkeeping `props` after an item was written to slot `at` with the
/// item in slot `origin` as its origin: the new entry takes over the hidden
/// start of the origin, and has none where the item is its own origin.
pub open spec fn props_added(props: Seq<ItemProps>, at: int, origin: int) -> Seq<ItemProps> {
    let fresh = ItemProps {
        hidden_start: if origin == at {
            usize::MAX
        } else {
            props[origin].hidden_start
        },
    };
    if props.len() <= at {
        props.push(fresh)
    } else {
        props.update(at, fresh)
    }
}

/// The item slots `items` after `item` was written to slot `at`, a slot
/// that is there or the next behind the last.
pub open spec fn item_written(items: Seq<Item>, at: int, item: Item) -> Seq<Item> {
    if at < items.len() {
        items.update(at, item)
    } else {
        items.push(item)
    }
}

/// `count` slots that nothing was written to; none where `count` is not
/// positive.
pub open spec fn fresh_slots(count: int) -> Seq<Item> {
    Seq::new(
        if count > 0 {
            count as nat
        } else {
            0
        },
        |i: int| Item::null_spec(),
    )
}

/// The arena in which rows are built. The row under construction is the
/// range `row_start..row_end` of `items`; what lies before it belongs to
/// earlier rows.
pub struct Scratch {
    pub row_start: usize,
    pub row_end: usize,
    pub items: Vec<Item>,
    pub item_props: Vec<ItemProps>,
    pub definitive: bool,
}

impl Scratch {
    pub open spec fn row_start_spec(&self) -> nat {
        self.row_start as nat
    }

    pub open spec fn row_end_spec(&self) -> nat {
        self.row_end as nat
    }

    /// Every item slot of the arena: the rows that were built, earlier rows
    /// included, and behind them the slots that are there to be written to.
    pub open spec fn items_view(&self) -> Seq<Item> {
        self.items@
    }

    pub open spec fn props_view(&self) -> Seq<ItemProps> {
        self.item_props@
    }

    pub open spec fn is_definitive(&self) -> bool {
        self.definitive
    }

    /// The items of the row under construction, in the order they were added.
    pub open spec fn row_view(&self) -> Seq<Item> {
        self.items_view().subrange(self.row_start_spec() as int, self.row_end_spec() as int)
    }

    /// The item slots of earlier rows.
    pub open spec fn before_row(&self) -> Seq<Item> {
        self.items_view().take(self.row_start_spec() as int)
    }

    /// The row under construction lies within the written slots, and in
    /// definitive mode each of its items has its bookkeeping entry.
    pub open spec fn wf(&self) -> bool {
        &&& self.row_start_spec() <= self.row_end_spec() <= self.items_view().len()
        &&& self.is_definitive() ==> self.row_end_spec() <= self.props_view().len()
    }

    pub fn new() -> (r: Scratch)
        ensures
            r.wf(),
            r.row_start_spec() == 0,
            r.row_end_spec() == 0,
            r.items_view().len() == 0,
            r.props_view().len() == 0,
            r.is_definitive(),
    {
        Scratch {
            row_start: 0,
            row_end: 0,
            items: Vec::new(),
            item_props: Vec::new(),
            definitive: true,
        }
    }

    /// Starts an empty row at slot `pos`, whatever slot that is. The arena
    /// is well-formed afterwards exactly where the slot lies within it or
    /// next behind it, and in definitive mode within the bookkeeping as well.
    pub fn new_row(&mut self, pos: usize)
        ensures
            pos <= old(self).items_view().len() && (old(self).is_definitive() ==> pos <= old(self).props_view().len()) ==> final(self).wf(),
            final(self).row_start_spec() == pos,
            final(self).row_end_spec() == pos,
            final(self).items_view() == old(self).items_view(),
            final(self).props_view() == old(self).props_view(),
            final(self).is_definitive() == old(self).is_definitive(),
    {
        self.row_start = pos;
        self.row_end = pos;
    }

    /// The item in slot `idx`.
    pub fn item_at(&self, idx: usize) -> (r: Item)
        requires
            idx < self.items_view().len(),
        ensures
            r == self.items_view()[idx as int],
    {
        self.items[idx]
    }

    pub fn row_len(&self) -> (r: usize)
        requires
            self.wf(),
        ensures
            r == self.row_view().len(),
    {
        self.row_end - self.row_start
    }

    /// The row under construction, as a row with the given lexeme set.
    pub fn work_row(&self, allowed_lexemes: LexemeSet) -> (r: Row)
        ensures
            r.first_item == self.row_start_spec(),
            r.last_item == self.row_end_spec(),
            r.allowed_lexemes == allowed_lexemes,
    {
        Row { first_item: self.row_start, last_item: self.row_end, allowed_lexemes }
    }

    /// Makes the arena hold at least `n` item slots. The slots that are
    /// added hold the null item; what was written stays, and so does the row
    /// under construction.
    pub fn ensure_items(&mut self, n: usize)
        ensures
            final(self).items_view() == old(self).items_view() + fresh_slots(n - old(self).items_view().len()),
            final(self).props_view() == old(self).props_view(),
            final(self).row_start_spec() == old(self).row_start_spec(),
            final(self).row_end_spec() == old(self).row_end_spec(),
            final(self).is_definitive() == old(self).is_definitive(),
    {
        let had = self.items.len();
        if had < n {
            let missing = n - had;
            self.items.reserve(missing);
            while self.items.len() < n
                invariant
                    had <= self.items@.len() <= n,
                    had == old(self).items@.len(),
                    self.items@ == old(self).items@ + fresh_slots(self.items@.len() - had),
                    self.item_props == old(self).item_props,
                    self.row_start == old(self).row_start,
                    self.row_end == old(self).row_end,
                    self.definitive == old(self).definitive,
                decreases n - self.items@.len(),
            {
                let ghost before = self.items@;
                self.items.push(Item::null());
                proof {
                    assert(self.items@ =~= old(self).items@ + fresh_slots(self.items@.len() - had));
                }
            }
        } else {
            proof {
                assert(self.items@ =~= old(self).items@ + fresh_slots(n - had));
            }
        }
    }

    /// Lets the bookkeeping of the item at `target_item_idx` take over what
    /// the item at `origin_item_idx` records.
    pub fn merge_item_origin(&mut self, target_item_idx: usize, origin_item_idx: usize)
        requires
            target_item_idx < old(self).props_view().len(),
            origin_item_idx < old(self).props_view().len(),
        ensures
            final(self).items_view() == old(self).items_view(),
            final(self).row_start_spec() == old(self).row_start_spec(),
            final(self).row_end_spec() == old(self).row_end_spec(),
            final(self).is_definitive() == old(self).is_definitive(),
            final(self).props_view().len() == old(self).props_view().len(),
            forall|i: int|
                0 <= i < old(self).props_view().len() && i != target_item_idx ==> final(self).props_view()[i] == old(self).props_view()[i],
            final(self).props_view()[target_item_idx as int].hidden_start == (if old(self).props_view()[target_item_idx as int].hidden_start <= old(self).props_view()[origin_item_idx as int].hidden_start {
                old(self).props_view()[target_item_idx as int].hidden_start
            } else {
                old(self).props_view()[origin_item_idx as int].hidden_start
            }),
    {
        let origin = self.item_props[origin_item_idx];
        let mut target = self.item_props[target_item_idx];
        target.merge(origin);
        self.item_props[target_item_idx] = target;
    }

    /// Appends `item` to the row under construction, whether or not the row
    /// holds it already.
    pub fn just_add(&mut self, item: Item, origin_item_idx: usize)
        requires
            old(self).wf(),
            old(self).is_definitive() ==> origin_item_idx < old(self).props_view().len() || origin_item_idx
                == old(self).row_end_spec(),
        ensures
            final(self).wf(),
            final(self).row_start_spec() == old(self).row_start_spec(),
            final(self).row_end_spec() == old(self).row_end_spec() + 1,
            final(self).is_definitive() == old(self).is_definitive(),
            final(self).row_view() == old(self).row_view().push(item),
            final(self).before_row() == old(self).before_row(),
            final(self).items_view().len() >= old(self).items_view().len(),
            final(self).props_view().len() >= old(self).props_view().len(),
            final(self).items_view() == item_written(
                old(self).items_view(),
                old(self).row_end_spec() as int,
                item,
            ),
            !old(self).is_definitive() ==> final(self).props_view() == old(self).props_view(),
            old(self).is_definitive() ==> final(self).props_view() == props_added(
                old(self).props_view(),
                old(self).row_end_spec() as int,
                origin_item_idx as int,
            ),
    {
        if self.row_end < self.items.len() {
            self.items[self.row_end] = item;
        } else {
            self.items.push(item);
        }
        if self.definitive {
            if self.item_props.len() <= self.row_end {
                self.item_props.push(ItemProps::new());
            } else {
                self.item_props[self.row_end] = ItemProps::new();
            }
            self.merge_item_origin(self.row_end, origin_item_idx);
            proof {
                let at = old(self).row_end_spec() as int;
                let fresh = ItemProps {
                    hidden_start: if origin_item_idx == at {
                        usize::MAX
                    } else {
                        old(self).props_view()[origin_item_idx as int].hidden_start
                    },
                };
                if old(self).props_view().len() <= at {
                    assert(self.props_view() =~= old(self).props_view().push(fresh));
                } else {
                    assert(self.props_view() =~= old(self).props_view().update(at, fresh));
                }
            }
        }
        proof {
            vstd::std_specs::vec::axiom_spec_len(&self.items);
        }
        self.row_end += 1;
        proof {
            assert(self.row_view() =~= old(self).row_view().push(item));
            assert(self.before_row() =~= old(self).before_row());
        }
    }

    /// Position of `item` in the row under construction, if the row holds it.
    pub fn find_item(&self, item: Item) -> (r: Option<usize>)
        requires
            self.wf(),
        ensures
            r is None <==> !self.row_view().contains(item),
            r matches Some(idx) ==> self.row_start_spec() <= idx < self.row_end_spec()
                && self.items_view()[idx as int] == item && first_at(
                self.row_view(),
                item,
                idx - self.row_start_spec(),
            ),
    {
        let mut i: usize = self.row_start;
        while i < self.row_end
            invariant
                self.wf(),
                self.row_start <= i <= self.row_end,
                forall|j: int| self.row_start <= j < i ==> self.items@[j] != item,
            decreases self.row_end - i,
        {
            if self.items[i] == item {
                proof {
                    assert(self.row_view()[i - self.row_start] == item);
                    assert forall|j: int| 0 <= j < i - self.row_start implies self.row_view()[j]
                        != item by {
                        assert(self.items@[self.row_start + j] != item);
                    }
                }
                return Some(i);
            }
            i += 1;
        }
        proof {
            if self.row_view().contains(item) {
                let k = choose|k: int| 0 <= k < self.row_view().len() && self.row_view()[k] == item;
                assert(self.items@[self.row_start + k] == item);
            }
        }
        None
    }

    /// Records that the hidden part of `item` starts no later than
    /// `hidden_start`. Does nothing where the row does not hold `item`.
    pub fn set_hidden_start(&mut self, item: Item, hidden_start: usize)
        requires
            old(self).wf(),
            old(self).is_definitive(),
        ensures
            final(self).wf(),
            final(self).items_view() == old(self).items_view(),
            final(self).row_start_spec() == old(self).row_start_spec(),
            final(self).row_end_spec() == old(self).row_end_spec(),
            final(self).is_definitive() == old(self).is_definitive(),
            final(self).props_view().len() == old(self).props_view().len(),
            !old(self).row_view().contains(item) ==> final(self).props_view() == old(self).props_view(),
            forall|k: int|
                first_at(old(self).row_view(), item, k) ==> final(self).props_view() == old(self).props_view().update(
                    old(self).row_start_spec() + k,
                    earlier(
                        old(self).props_view()[old(self).row_start_spec() + k],
                        ItemProps { hidden_start },
                    ),
                ),
    {
        match self.find_item(item) {
            Some(idx) => {
                let mut p = self.item_props[idx];
                p.merge(ItemProps { hidden_start });
                self.item_props[idx] = p;
                proof {
                    assert forall|k: int| first_at(old(self).row_view(), item, k) implies k == idx
                        - old(self).row_start_spec() by {
                        Self::lemma_first_once(old(self).row_view(), item, k, idx - old(self).row_start_spec());
                    }
                    assert(self.props_view() =~= old(self).props_view().update(
                        idx as int,
                        earlier(old(self).props_view()[idx as int], ItemProps { hidden_start }),
                    ));
                }
            },
            None => {
                proof {
                    assert forall|k: int| !first_at(old(self).row_view(), item, k) by {
                        if first_at(old(self).row_view(), item, k) {
                            assert(old(self).row_view().contains(item));
                        }
                    }
                }
            },
        }
    }

    /// An item has one first position in a row.
    pub proof fn lemma_first_once(row: Seq<Item>, item: Item, a: int, b: int)
        requires
            first_at(row, item, a),
            first_at(row, item, b),
        ensures
            a == b,
    {
    }

    /// Appends `item` to the row under construction unless the row holds it.
    pub fn add_unique(&mut self, item: Item, origin_item_idx: usize)
        requires
            old(self).wf(),
            old(self).is_definitive() ==> origin_item_idx < old(self).props_view().len() || (
            origin_item_idx == old(self).row_end_spec() && !old(self).row_view().contains(item)),
        ensures
            final(self).wf(),
            final(self).row_start_spec() == old(self).row_start_spec(),
            final(self).is_definitive() == old(self).is_definitive(),
            final(self).row_view() == (if old(self).row_view().contains(item) {
                old(self).row_view()
            } else {
                old(self).row_view().push(item)
            }),
            final(self).before_row() == old(self).before_row(),
            final(self).items_view().len() >= old(self).items_view().len(),
            final(self).props_view().len() >= old(self).props_view().len(),
            old(self).row_view().contains(item) ==> final(self).items_view() == old(self).items_view(),
            !old(self).row_view().contains(item) ==> final(self).items_view() == item_written(
                old(self).items_view(),
                old(self).row_end_spec() as int,
                item,
            ),
            !old(self).is_definitive() ==> final(self).props_view() == old(self).props_view(),
            old(self).is_definitive() && !old(self).row_view().contains(item) ==> final(self).props_view()
                == props_added(
                old(self).props_view(),
                old(self).row_end_spec() as int,
                origin_item_idx as int,
            ),
            old(self).is_definitive() ==> forall|k: int|
                first_at(old(self).row_view(), item, k) ==> final(self).props_view() == old(self).props_view().update(
                    old(self).row_start_spec() + k,
                    earlier(
                        old(self).props_view()[old(self).row_start_spec() + k],
                        old(self).props_view()[origin_item_idx as int],
                    ),
                ),
    {
        match self.find_item(item) {
            Some(idx) => {
                if self.definitive {
                    self.merge_item_origin(idx, origin_item_idx);
                    proof {
                        assert forall|k: int| first_at(old(self).row_view(), item, k) implies k == idx
                            - old(self).row_start_spec() by {
                            Self::lemma_first_once(
                                old(self).row_view(),
                                item,
                                k,
                                idx - old(self).row_start_spec(),
                            );
                        }
                        assert(self.props_view() =~= old(self).props_view().update(
                            idx as int,
                            earlier(
                                old(self).props_view()[idx as int],
                                old(self).props_view()[origin_item_idx as int],
                            ),
                        ));
                    }
                }
                proof {
                    assert(self.row_view() =~= old(self).row_view());
                }
            },
            None => {
                self.just_add(item, origin_item_idx);
                proof {
                    assert forall|k: int| !first_at(old(self).row_view(), item, k) by {
                        if first_at(old(self).row_view(), item, k) {
                            assert(old(self).row_view().contains(item));
                        }
                    }
                }
            },
        }
    }
}

} // verus!
