//! Sets of LR(0) items, kept in ascending order so that equal sets are
//! equal sequences.

use vstd::prelude::*;
use crate::parsers::items::model::{ascending, item_lt, LR0Item};

verus! {

/// A set of items in ascending order.
pub struct ItemSet {
    pub(crate) items: Vec<LR0Item>,
}

impl View for ItemSet {
    type V = Set<LR0Item>;

    open(crate) spec fn view(&self) -> Set<LR0Item> {
        self.items@.to_set()
    }
}

/// Whether `a` comes before `b`.
pub fn item_before(a: &LR0Item, b: &LR0Item) -> (r: bool)
    ensures
        r == item_lt(*a, *b),
{
    a.rule_index < b.rule_index || (a.rule_index == b.rule_index && a.dot_index < b.dot_index)
}

impl ItemSet {
    /// The items stand in ascending order.
    pub open(crate) spec fn wf(&self) -> bool {
        ascending(self.items@)
    }

    /// The items in ascending order.
    pub open(crate) spec fn seq(&self) -> Seq<LR0Item> {
        self.items@
    }

    /// The empty set.
    pub fn new() -> (s: Self)
        ensures
            s.wf(),
            s@ == Set::<LR0Item>::empty(),
    {
        let s = ItemSet { items: Vec::new() };
        assert(s@ =~= Set::<LR0Item>::empty());
        s
    }

    /// The number of items.
    pub fn len(&self) -> (n: usize)
        ensures
            n == self.seq().len(),
    {
        self.items.len()
    }

    /// The item at position `i` of the ascending order.
    pub fn get(&self, i: usize) -> (item: LR0Item)
        requires
            i < self.seq().len(),
        ensures
            item == self.seq()[i as int],
            self@.contains(item),
    {
        assert(self.items@.to_set().contains(self.items@[i as int]));
        self.items[i]
    }

    /// The number of items that come before `item`.
    fn rank(&self, item: &LR0Item) -> (k: usize)
        requires
            self.wf(),
        ensures
            k <= self.seq().len(),
            forall|i: int| 0 <= i < k ==> item_lt(#[trigger] self.seq()[i], *item),
            forall|i: int| k <= i < self.seq().len() ==> !item_lt(#[trigger] self.seq()[i], *item),
    {
        let mut k: usize = 0;
        while k < self.items.len() && item_before(&self.items[k], item)
            invariant
                self.wf(),
                k <= self.items@.len(),
                forall|i: int| 0 <= i < k ==> item_lt(#[trigger] self.items@[i], *item),
            decreases self.items@.len() - k,
        {
            k += 1;
        }
        assert forall|i: int| k <= i < self.items@.len() implies !item_lt(
            #[trigger] self.items@[i],
            *item,
        ) by {
            if i > k {
                assert(item_lt(self.items@[k as int], self.items@[i]));
            }
        }
        k
    }

    /// Whether `item` is a member.
    pub fn contains(&self, item: &LR0Item) -> (r: bool)
        requires
            self.wf(),
        ensures
            r == self@.contains(*item),
    {
        let k = self.rank(item);
        let r = k < self.items.len() && self.items[k].rule_index == item.rule_index
            && self.items[k].dot_index == item.dot_index;
        proof {
            if self.items@.contains(*item) {
                let i = choose|i: int| 0 <= i < self.items@.len() && self.items@[i] == *item;
                if i > k {
                    assert(item_lt(self.items@[k as int], self.items@[i]));
                }
                if i < k {
                    assert(item_lt(self.items@[i], *item));
                }
            }
            if r {
                assert(self.items@[k as int] == *item);
            }
        }
        r
    }

    /// Inserts `item` unless it is already a member; says whether it was
    /// added.
    pub fn insert(&mut self, item: LR0Item) -> (added: bool)
        requires
            old(self).wf(),
        ensures
            final(self).wf(),
            final(self)@ == old(self)@.insert(item),
            added == !old(self)@.contains(item),
    {
        let k = self.rank(&item);
        let present = k < self.items.len() && self.items[k].rule_index == item.rule_index
            && self.items[k].dot_index == item.dot_index;
        proof {
            if self.items@.contains(item) {
                let i = choose|i: int| 0 <= i < self.items@.len() && self.items@[i] == item;
                if i > k {
                    assert(item_lt(self.items@[k as int], self.items@[i]));
                }
                if i < k {
                    assert(item_lt(self.items@[i], item));
                }
            }
        }
        if present {
            assert(self.items@[k as int] == item);
            assert(self@.insert(item) =~= self@);
            false
        } else {
            let ghost before = self.items@;
            self.items.insert(k, item);
            proof {
                let after = self.items@;
                assert(after =~= before.insert(k as int, item));
                assert forall|i: int, j: int| 0 <= i < j < after.len() implies item_lt(
                    #[trigger] after[i],
                    #[trigger] after[j],
                ) by {
                    let bi = if i < k {
                        i
                    } else {
                        i - 1
                    };
                    let bj = if j < k {
                        j
                    } else {
                        j - 1
                    };
                    if i != k && j != k {
                        assert(item_lt(before[bi], before[bj]));
                    } else if i == k {
                        assert(!item_lt(before[bj], item));
                        assert(before[bj] != item) by {
                            assert(before.contains(before[bj]));
                        }
                    } else {
                        assert(item_lt(before[bi], item));
                    }
                }
                assert forall|t: LR0Item| after.to_set().contains(t) == before.to_set().insert(
                    item,
                ).contains(t) by {
                    if after.contains(t) {
                        let i = choose|i: int| 0 <= i < after.len() && after[i] == t;
                        if i < k {
                            assert(before[i] == t);
                        } else if i > k {
                            assert(before[i - 1] == t);
                        }
                    }
                    if before.contains(t) {
                        let i = choose|i: int| 0 <= i < before.len() && before[i] == t;
                        if i < k {
                            assert(after[i] == t);
                        } else {
                            assert(after[i + 1] == t);
                        }
                    }
                    assert(after[k as int] == item);
                }
                assert(after.to_set() =~= before.to_set().insert(item));
            }
            true
        }
    }

    /// The items in ascending order.
    pub fn to_vec(&self) -> (v: Vec<LR0Item>)
        ensures
            v@ == self.seq(),
    {
        let mut v: Vec<LR0Item> = Vec::new();
        let mut i: usize = 0;
        while i < self.items.len()
            invariant
                i <= self.items@.len(),
                v@ == self.items@.take(i as int),
            decreases self.items@.len() - i,
        {
            v.push(self.items[i]);
            assert(self.items@.take(i + 1) =~= self.items@.take(i as int).push(self.items@[i as int]));
            i += 1;
        }
        assert(self.items@.take(self.items@.len() as int) =~= self.items@);
        v
    }

    /// Whether the two sets have the same items.
    pub fn same_items(&self, other: &ItemSet) -> (r: bool)
        requires
            self.wf(),
            other.wf(),
        ensures
            r == (self@ == other@),
    {
        if self.items.len() != other.items.len() {
            proof {
                if self@ == other@ {
                    crate::parsers::items::model::lemma_ascending_unique(self.items@, other.items@);
                }
            }
            return false;
        }
        let mut i: usize = 0;
        while i < self.items.len()
            invariant
                self.wf(),
                other.wf(),
                self.items@.len() == other.items@.len(),
                i <= self.items@.len(),
                forall|k: int| 0 <= k < i ==> self.items@[k] == other.items@[k],
            decreases self.items@.len() - i,
        {
            if self.items[i].rule_index != other.items[i].rule_index || self.items[i].dot_index
                != other.items[i].dot_index {
                proof {
                    if self@ == other@ {
                        crate::parsers::items::model::lemma_ascending_unique(
                            self.items@,
                            other.items@,
                        );
                    }
                }
                return false;
            }
            i += 1;
        }
        assert(self.items@ =~= other.items@);
        true
    }
}

} // verus!
