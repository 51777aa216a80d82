//! The container itself: a keyed store of tagged items plus an explicit
//! order index that records most-recent-set order and keeps gaps.

use vstd::prelude::*;

verus! {

use crate::IdoKeyT;
use crate::item::IdoItem;
use crate::item::IdoItemType;

broadcast use vstd::std_specs::vec::group_vec_axioms, vstd::seq::group_seq_axioms;

/// The ordered associative container. Entries live in `m_items` (unique
/// keys); `m_slots` holds, for the entry at the same index, its position in
/// the order index, if it has one; `m_ordered` maps order positions back to
/// keys, with `None` marking a gap left by an overwrite or a deletion.
/// Fresh positions are handed out at the end and never reused.
pub struct Ido {
    pub(crate) m_items: Vec<IdoItem>,
    pub(crate) m_slots: Vec<Option<usize>>,
    pub(crate) m_ordered: Vec<Option<IdoKeyT>>,
}

/// An iterator over the container's entries in order-index position order,
/// skipping the gaps left by overwrites and deletions.
pub struct OrderedIdoIterator<'a> {
    m_ido: &'a Ido,
    m_curr: usize,
}

impl Ido {
    #[verifier::type_invariant]
    pub(crate) closed spec fn inv(self) -> bool {
        &&& self.m_slots@.len() == self.m_items@.len()
        &&& forall|i: int, j: int|
            0 <= i < j < self.m_items@.len() ==> self.m_items@[i].m_key != self.m_items@[j].m_key
        &&& forall|i: int|
            0 <= i < self.m_items@.len() ==> (#[trigger] self.m_slots@[i] matches Some(p) ==> p
                < self.m_ordered@.len() && self.m_ordered@[p as int] == Some(
                self.m_items@[i].m_key,
            ))
        &&& forall|p: int|
            0 <= p < self.m_ordered@.len() ==> (#[trigger] self.m_ordered@[p] matches Some(k)
                ==> exists|i: int|
                0 <= i < self.m_items@.len() && self.m_items@[i].m_key == k && self.m_slots@[i]
                    == Some(p as usize))
    }

    /// Whether an entry with key `k` is present.
    pub closed spec fn spec_contains(self, k: IdoKeyT) -> bool {
        exists|i: int| 0 <= i < self.m_items@.len() && self.m_items@[i].m_key == k
    }

    pub(crate) closed spec fn idx_of(self, k: IdoKeyT) -> int {
        choose|i: int| 0 <= i < self.m_items@.len() && self.m_items@[i].m_key == k
    }

    /// The stored item for key `k` (meaningful only when present).
    pub closed spec fn spec_get(self, k: IdoKeyT) -> IdoItem
        recommends
            self.spec_contains(k),
    {
        self.m_items@[self.idx_of(k)]
    }

    /// The number of live entries.
    pub closed spec fn spec_size(self) -> nat {
        self.m_items@.len()
    }

    /// The set of live keys.
    pub open spec fn spec_keys(self) -> Set<IdoKeyT> {
        Set::new(|k: IdoKeyT| self.spec_contains(k))
    }

    /// The order index as a sequence: position `p` holds `Some(k)` when key
    /// `k` occupies order slot `p`, and `None` at a gap. Its length is the
    /// monotonic counter: the next position a set will use.
    pub closed spec fn spec_order(self) -> Seq<Option<IdoKeyT>> {
        self.m_ordered@
    }

    /// The order slot of key `k`: absent when the key is absent or when the
    /// entry holds no slot (an entry adopted by `update`).
    pub closed spec fn spec_slot(self, k: IdoKeyT) -> Option<usize> {
        if self.spec_contains(k) {
            self.m_slots@[self.idx_of(k)]
        } else {
            None
        }
    }

    /// A fresh, empty container: no entries, no order slots, counter at zero.
    pub fn new() -> (r: Self)
        ensures
            r.spec_size() == 0,
            r.spec_order().len() == 0,
            forall|k: IdoKeyT| !r.spec_contains(k),
    {
        let r = Ido { m_items: Vec::new(), m_slots: Vec::new(), m_ordered: Vec::new() };
        r
    }

    /// The number of live entries; order-index gaps are not counted.
    pub fn size(&self) -> (r: usize)
        ensures
            r == self.spec_size(),
            self.spec_size() == self.spec_keys().len(),
            self.spec_keys().finite(),
    {
        proof {
            use_type_invariant(self);
            self.lemma_size_is_key_count();
        }
        self.m_items.len()
    }

    pub(crate) proof fn lemma_size_is_key_count(self)
        requires
            self.inv(),
        ensures
            self.spec_keys().finite(),
            self.spec_size() == self.spec_keys().len(),
    {
        let keys = self.m_items@.map_values(|it: IdoItem| it.m_key);
        assert(keys.no_duplicates());
        keys.unique_seq_to_set();
        assert forall|k: IdoKeyT| keys.to_set().contains(k) == self.spec_contains(k) by {
            if keys.contains(k) {
                let i = choose|i: int| 0 <= i < keys.len() && keys[i] == k;
                assert(self.m_items@[i].m_key == k);
            }
            if self.spec_contains(k) {
                let i = choose|i: int|
                    0 <= i < self.m_items@.len() && self.m_items@[i].m_key == k;
                assert(keys[i] == k);
            }
        }
        assert(keys.to_set() =~= self.spec_keys());
    }

    /// Whether the container holds an entry with the given key.
    pub fn contains(&self, key: &IdoKeyT) -> (r: bool)
        ensures
            r == self.spec_contains(*key),
    {
        proof {
            use_type_invariant(self);
        }
        find_idx(&self.m_items, key).is_some()
    }
}

/// Deep equivalence of containers: the same order index, the same slot
/// assignments, and pairwise equivalent entries. This is what a deep copy
/// preserves.
pub closed spec fn ido_equiv(a: Ido, b: Ido) -> bool
    decreases a, 2int, 0int,
{
    proof {
        assert(decreases_to!(a => a.m_items));
        assert(decreases_to!(a.m_items => a.m_items@));
    }
    {
        &&& a.m_ordered@ == b.m_ordered@
        &&& a.m_slots@ == b.m_slots@
        &&& items_equiv_from(a.m_items@, b.m_items@, 0)
    }
}

/// Entries of `xs` and `ys` are pairwise equivalent from index `i` on, and
/// the two sequences have the same length.
pub open spec fn items_equiv_from(xs: Seq<IdoItem>, ys: Seq<IdoItem>, i: int) -> bool
    decreases xs, 1int, xs.len() - i,
{
    if i < 0 || i >= xs.len() || xs.len() != ys.len() {
        xs.len() == ys.len()
    } else {
        item_equiv(xs[i], ys[i]) && items_equiv_from(xs, ys, i + 1)
    }
}

/// Deep equivalence of items: equal key, tag and scalar payloads, and
/// pairwise equivalent array elements.
pub open spec fn item_equiv(x: IdoItem, y: IdoItem) -> bool
    decreases x, 2int, 0int,
{
    proof {
        assert(decreases_to!(x => x.m_array));
        assert(decreases_to!(x.m_array => x.m_array@));
    }
    {
        &&& x.m_key == y.m_key
        &&& x.m_type == y.m_type
        &&& x.m_string@ == y.m_string@
        &&& x.m_integer == y.m_integer
        &&& x.m_float_text@ == y.m_float_text@
        &&& x.m_datetime == y.m_datetime
        &&& arr_equiv_from(x.m_array@, y.m_array@, 0)
    }
}

/// Containers of `xa` and `ya` are pairwise equivalent from index `j` on,
/// and the two sequences have the same length.
pub open spec fn arr_equiv_from(xa: Seq<Ido>, ya: Seq<Ido>, j: int) -> bool
    decreases xa, 1int, xa.len() - j,
{
    if j < 0 || j >= xa.len() || xa.len() != ya.len() {
        xa.len() == ya.len()
    } else {
        ido_equiv(xa[j], ya[j]) && arr_equiv_from(xa, ya, j + 1)
    }
}

pub(crate) proof fn lemma_items_equiv_pointwise(xs: Seq<IdoItem>, ys: Seq<IdoItem>, i: int)
    requires
        xs.len() == ys.len(),
        forall|t: int| i <= t < xs.len() ==> item_equiv(xs[t], ys[t]),
    ensures
        items_equiv_from(xs, ys, i),
    decreases xs.len() - i,
{
    if 0 <= i < xs.len() {
        lemma_items_equiv_pointwise(xs, ys, i + 1);
    }
}

pub(crate) proof fn lemma_arr_equiv_pointwise(xa: Seq<Ido>, ya: Seq<Ido>, j: int)
    requires
        xa.len() == ya.len(),
        forall|t: int| j <= t < xa.len() ==> ido_equiv(xa[t], ya[t]),
    ensures
        arr_equiv_from(xa, ya, j),
    decreases xa.len() - j,
{
    if 0 <= j < xa.len() {
        lemma_arr_equiv_pointwise(xa, ya, j + 1);
    }
}

/// A copy of a vector of plain (copyable) values.
fn copy_plain_vec<T: Copy>(v: &Vec<T>) -> (r: Vec<T>)
    ensures
        r@ == v@,
{
    let mut r: Vec<T> = Vec::new();
    let mut i: usize = 0;
    while i < v.len()
        invariant
            i <= v@.len(),
            r@ =~= v@.subrange(0, i as int),
        decreases v@.len() - i,
    {
        r.push(v[i]);
        i = i + 1;
    }
    proof {
        assert(r@ =~= v@);
    }
    r
}

impl Clone for IdoItem {
    /// A deep copy: equivalent to the original in key, tag and payload.
    fn clone(&self) -> (res: Self)
        ensures
            item_equiv(*self, res),
        decreases *self, 1int, 0int,
    {
        let mut arr: Vec<Ido> = Vec::new();
        let mut j: usize = 0;
        while j < self.m_array.len()
            invariant
                j <= self.m_array@.len(),
                arr@.len() == j,
                forall|t: int| 0 <= t < j ==> ido_equiv(self.m_array@[t], arr@[t]),
            decreases self.m_array@.len() - j,
        {
            proof {
                assert(decreases_to!(*self => self.m_array));
                assert(decreases_to!(self.m_array => self.m_array@));
                assert(decreases_to!(self.m_array@ => self.m_array@[j as int]));
            }
            let e = (&self.m_array[j]).clone();
            arr.push(e);
            j = j + 1;
        }
        let res = IdoItem {
            m_key: self.m_key,
            m_string: self.m_string.clone(),
            m_type: self.m_type,
            m_integer: self.m_integer,
            m_float_text: self.m_float_text.clone(),
            m_datetime: self.m_datetime,
            m_array: arr,
        };
        proof {
            lemma_arr_equiv_pointwise(self.m_array@, res.m_array@, 0);
        }
        res
    }
}

impl Clone for Ido {
    /// A deep copy: equivalent to the original in entries, slots and order.
    fn clone(&self) -> (res: Self)
        ensures
            ido_equiv(*self, res),
        decreases *self, 2int, 0int,
    {
        proof {
            use_type_invariant(self);
        }
        let mut items: Vec<IdoItem> = Vec::new();
        let mut i: usize = 0;
        while i < self.m_items.len()
            invariant
                i <= self.m_items@.len(),
                items@.len() == i,
                forall|t: int| 0 <= t < i ==> item_equiv(self.m_items@[t], items@[t]),
            decreases self.m_items@.len() - i,
        {
            proof {
                assert(decreases_to!(*self => self.m_items));
                assert(decreases_to!(self.m_items => self.m_items@));
                assert(decreases_to!(self.m_items@ => self.m_items@[i as int]));
            }
            let e = (&self.m_items[i]).clone();
            items.push(e);
            i = i + 1;
        }
        let slots = copy_plain_vec(&self.m_slots);
        let ordered = copy_plain_vec(&self.m_ordered);
        proof {
            assert(forall|t: int|
                0 <= t < items@.len() ==> items@[t].m_key == self.m_items@[t].m_key);
        }
        let res = Ido { m_items: items, m_slots: slots, m_ordered: ordered };
        proof {
            assert forall|p: int|
                0 <= p < res.m_ordered@.len() && (#[trigger] res.m_ordered@[p])
                    is Some implies exists|t: int|
                0 <= t < res.m_items@.len() && res.m_items@[t].m_key == res.m_ordered@[p]->0
                    && res.m_slots@[t] == Some(p as usize) by {
                let k = res.m_ordered@[p]->0;
                let t = choose|t: int|
                    0 <= t < self.m_items@.len() && self.m_items@[t].m_key == k
                        && self.m_slots@[t] == Some(p as usize);
                assert(res.m_items@[t].m_key == k && res.m_slots@[t] == Some(p as usize));
            }
            lemma_items_equiv_pointwise(self.m_items@, res.m_items@, 0);
        }
        res
    }
}

impl Ido {
    pub(crate) proof fn lemma_found_is_idx(self, i: int, k: IdoKeyT)
        requires
            self.inv(),
            0 <= i < self.m_items@.len(),
            self.m_items@[i].m_key == k,
        ensures
            self.spec_contains(k),
            self.idx_of(k) == i,
    {
    }

    /// A deep copy of the stored item, or absent when the key is absent.
    pub fn get_item(&self, key: &IdoKeyT) -> (r: Option<IdoItem>)
        ensures
            self.spec_contains(*key) ==> (r matches Some(v) && item_equiv(
                self.spec_get(*key),
                v,
            )),
            !self.spec_contains(*key) ==> r is None,
    {
        proof {
            use_type_invariant(self);
        }
        match find_idx(&self.m_items, key) {
            Some(i) => {
                let v = self.m_items[i].clone();
                proof {
                    self.lemma_found_is_idx(i as int, *key);
                }
                Some(v)
            },
            None => None,
        }
    }

    /// Whether the entry at `key` exists and holds the given variant;
    /// absent and wrong-variant are both reported as false.
    pub fn is_type(&self, key: &IdoKeyT, ty: &IdoItemType) -> (r: bool)
        ensures
            r == (self.spec_contains(*key) && self.spec_get(*key).m_type == *ty),
    {
        proof {
            use_type_invariant(self);
        }
        match find_idx(&self.m_items, key) {
            Some(i) => {
                proof {
                    self.lemma_found_is_idx(i as int, *key);
                }
                self.m_items[i].m_type == *ty
            },
            None => false,
        }
    }

    /// The string payload, if the key is present and string-typed.
    pub fn get_string(&self, key: &IdoKeyT) -> (r: Option<String>)
        ensures
            self.spec_contains(*key) && self.spec_get(*key).m_type == IdoItemType::STRING ==> (
            r matches Some(s) && s@ == self.spec_get(*key).m_string@),
            !(self.spec_contains(*key) && self.spec_get(*key).m_type == IdoItemType::STRING)
                ==> r is None,
    {
        proof {
            use_type_invariant(self);
        }
        match find_idx(&self.m_items, key) {
            Some(i) => {
                proof {
                    self.lemma_found_is_idx(i as int, *key);
                }
                if self.m_items[i].m_type == IdoItemType::STRING {
                    Some(self.m_items[i].m_string.clone())
                } else {
                    None
                }
            },
            None => None,
        }
    }

    /// The decimal text of the float payload, if the key is present and
    /// float-typed.
    pub fn get_float_text(&self, key: &IdoKeyT) -> (r: Option<String>)
        ensures
            self.spec_contains(*key) && self.spec_get(*key).m_type == IdoItemType::FLOAT ==> (
            r matches Some(s) && s@ == self.spec_get(*key).m_float_text@),
            !(self.spec_contains(*key) && self.spec_get(*key).m_type == IdoItemType::FLOAT)
                ==> r is None,
    {
        proof {
            use_type_invariant(self);
        }
        match find_idx(&self.m_items, key) {
            Some(i) => {
                proof {
                    self.lemma_found_is_idx(i as int, *key);
                }
                if self.m_items[i].m_type == IdoItemType::FLOAT {
                    Some(self.m_items[i].m_float_text.clone())
                } else {
                    None
                }
            },
            None => None,
        }
    }

    /// The integer payload at full width, if the key is present and
    /// integer-typed.
    pub fn get_i64(&self, key: &IdoKeyT) -> (r: Option<i64>)
        ensures
            self.spec_contains(*key) && self.spec_get(*key).m_type == IdoItemType::INTEGER ==> r
                == Some(self.spec_get(*key).m_integer),
            !(self.spec_contains(*key) && self.spec_get(*key).m_type == IdoItemType::INTEGER)
                ==> r is None,
    {
        proof {
            use_type_invariant(self);
        }
        match find_idx(&self.m_items, key) {
            Some(i) => {
                proof {
                    self.lemma_found_is_idx(i as int, *key);
                }
                if self.m_items[i].m_type == IdoItemType::INTEGER {
                    Some(self.m_items[i].m_integer)
                } else {
                    None
                }
            },
            None => None,
        }
    }
    /// The integer payload truncated to 32 bits, if the key is present and
    /// integer-typed. Truncation is silent: no range check is made.
    pub fn get_i32(&self, key: &IdoKeyT) -> (r: Option<i32>)
        ensures
            self.spec_contains(*key) && self.spec_get(*key).m_type == IdoItemType::INTEGER ==> r
                == Some(self.spec_get(*key).m_integer as i32),
            !(self.spec_contains(*key) && self.spec_get(*key).m_type == IdoItemType::INTEGER)
                ==> r is None,
    {
        match self.get_i64(key) {
            Some(v) => Some(#[verifier::truncate] (v as i32)),
            None => None,
        }
    }

    /// The integer payload truncated to 16 bits, if the key is present and
    /// integer-typed. Truncation is silent: no range check is made.
    pub fn get_i16(&self, key: &IdoKeyT) -> (r: Option<i16>)
        ensures
            self.spec_contains(*key) && self.spec_get(*key).m_type == IdoItemType::INTEGER ==> r
                == Some(self.spec_get(*key).m_integer as i16),
            !(self.spec_contains(*key) && self.spec_get(*key).m_type == IdoItemType::INTEGER)
                ==> r is None,
    {
        match self.get_i64(key) {
            Some(v) => Some(#[verifier::truncate] (v as i16)),
            None => None,
        }
    }

    /// The integer payload truncated to 8 bits, if the key is present and
    /// integer-typed. Truncation is silent: no range check is made.
    pub fn get_i8(&self, key: &IdoKeyT) -> (r: Option<i8>)
        ensures
            self.spec_contains(*key) && self.spec_get(*key).m_type == IdoItemType::INTEGER ==> r
                == Some(self.spec_get(*key).m_integer as i8),
            !(self.spec_contains(*key) && self.spec_get(*key).m_type == IdoItemType::INTEGER)
                ==> r is None,
    {
        match self.get_i64(key) {
            Some(v) => Some(#[verifier::truncate] (v as i8)),
            None => None,
        }
    }

    /// The integer payload reinterpreted as unsigned 64-bit, if the key is
    /// present and integer-typed.
    pub fn get_u64(&self, key: &IdoKeyT) -> (r: Option<u64>)
        ensures
            self.spec_contains(*key) && self.spec_get(*key).m_type == IdoItemType::INTEGER ==> r
                == Some(self.spec_get(*key).m_integer as u64),
            !(self.spec_contains(*key) && self.spec_get(*key).m_type == IdoItemType::INTEGER)
                ==> r is None,
    {
        match self.get_i64(key) {
            Some(v) => Some(#[verifier::truncate] (v as u64)),
            None => None,
        }
    }

    /// The integer payload truncated to unsigned 32-bit, if the key is
    /// present and integer-typed. Truncation is silent: no range check is
    /// made.
    pub fn get_u32(&self, key: &IdoKeyT) -> (r: Option<u32>)
        ensures
            self.spec_contains(*key) && self.spec_get(*key).m_type == IdoItemType::INTEGER ==> r
                == Some(self.spec_get(*key).m_integer as u32),
            !(self.spec_contains(*key) && self.spec_get(*key).m_type == IdoItemType::INTEGER)
                ==> r is None,
    {
        match self.get_i64(key) {
            Some(v) => Some(#[verifier::truncate] (v as u32)),
            None => None,
        }
    }

    /// The integer payload truncated to unsigned 16-bit, if the key is
    /// present and integer-typed. Truncation is silent: no range check is
    /// made.
    pub fn get_u16(&self, key: &IdoKeyT) -> (r: Option<u16>)
        ensures
            self.spec_contains(*key) && self.spec_get(*key).m_type == IdoItemType::INTEGER ==> r
                == Some(self.spec_get(*key).m_integer as u16),
            !(self.spec_contains(*key) && self.spec_get(*key).m_type == IdoItemType::INTEGER)
                ==> r is None,
    {
        match self.get_i64(key) {
            Some(v) => Some(#[verifier::truncate] (v as u16)),
            None => None,
        }
    }

    /// The integer payload truncated to unsigned 8-bit, if the key is
    /// present and integer-typed. Truncation is silent: no range check is
    /// made.
    pub fn get_u8(&self, key: &IdoKeyT) -> (r: Option<u8>)
        ensures
            self.spec_contains(*key) && self.spec_get(*key).m_type == IdoItemType::INTEGER ==> r
                == Some(self.spec_get(*key).m_integer as u8),
            !(self.spec_contains(*key) && self.spec_get(*key).m_type == IdoItemType::INTEGER)
                ==> r is None,
    {
        match self.get_i64(key) {
            Some(v) => Some(#[verifier::truncate] (v as u8)),
            None => None,
        }
    }
}

/// How one `set` changes a container: the key is present afterwards and
/// occupies the fresh order position; the counter grows by one; size grows
/// exactly when the key was absent; every other entry and its slot are
/// untouched; and the key's old slot, if it had one, becomes a gap.
pub open spec fn set_transition(pre: Ido, post: Ido, k: IdoKeyT) -> bool {
    &&& post.spec_contains(k)
    &&& post.spec_slot(k) == Some(pre.spec_order().len() as usize)
    &&& post.spec_size() == pre.spec_size() + (if pre.spec_contains(k) {
        0int
    } else {
        1int
    })
    &&& (forall|k2: IdoKeyT| k2 != k ==> post.spec_contains(k2) == pre.spec_contains(k2))
    &&& (forall|k2: IdoKeyT|
        k2 != k && pre.spec_contains(k2) ==> post.spec_get(k2) == pre.spec_get(k2)
            && post.spec_slot(k2) == pre.spec_slot(k2))
    &&& post.spec_order() == (match pre.spec_slot(k) {
        Some(p) => pre.spec_order().update(p as int, None).push(Some(k)),
        None => pre.spec_order().push(Some(k)),
    })
    &&& (pre.spec_slot(k) matches Some(p) ==> p < pre.spec_order().len()
        && pre.spec_order()[p as int] == Some(k))
}

impl Ido {
    /// Stores `item` under `key`, renewing the key's order position: the
    /// entry is written with its key field set to `key`, the old order slot
    /// (if any) becomes a gap, and the entry takes the next fresh position.
    /// The payload is stored unchanged. Always succeeds.
    pub fn set_item(&mut self, key: &IdoKeyT, item: IdoItem)
        ensures
            set_transition(*old(self), *final(self), *key),
            ({
                let stored = final(self).spec_get(*key);
                &&& stored.m_key == *key
                &&& stored.m_type == item.m_type
                &&& stored.m_string == item.m_string
                &&& stored.m_integer == item.m_integer
                &&& stored.m_float_text == item.m_float_text
                &&& stored.m_datetime == item.m_datetime
                &&& stored.m_array == item.m_array
            }),
    {
        proof {
            use_type_invariant(&*self);
        }
        let ghost pre = *self;
        let mut work = Ido::new();
        core::mem::swap(&mut work, self);
        let Ido { m_items: mut items, m_slots: mut slots, m_ordered: mut ordered } = work;
        let mut item = item;
        item.m_key = *key;
        let newpos = ordered.len();
        let found = find_idx(&items, key);
        match found {
            Some(i) => {
                proof {
                    pre.lemma_found_is_idx(i as int, *key);
                }
                if let Some(p) = slots[i] {
                    ordered[p] = None;
                }
                items[i] = item;
                slots[i] = Some(newpos);
            },
            None => {
                items.push(item);
                slots.push(Some(newpos));
            },
        }
        ordered.push(Some(*key));
        proof {
            let post = Ido { m_items: items, m_slots: slots, m_ordered: ordered };
            lemma_set_shape(pre, post, *key, item, newpos);
        }
        *self = Ido { m_items: items, m_slots: slots, m_ordered: ordered };
    }
}

impl Ido {
    /// Stores a string value under `key`, replacing any prior value and
    /// type there and renewing the key's order position.
    pub fn set_string(&mut self, key: &IdoKeyT, val: String)
        ensures
            set_transition(*old(self), *final(self), *key),
            final(self).spec_get(*key).m_key == *key,
            final(self).spec_get(*key).m_type == IdoItemType::STRING,
            final(self).spec_get(*key).m_string@ == val@,
    {
        let mut item = IdoItem::new();
        item.m_type = IdoItemType::STRING;
        item.m_string = val;
        self.set_item(key, item);
    }

    /// Stores a 64-bit integer value under `key`, replacing any prior value
    /// and type there and renewing the key's order position.
    pub fn set_integer(&mut self, key: &IdoKeyT, val: i64)
        ensures
            set_transition(*old(self), *final(self), *key),
            final(self).spec_get(*key).m_key == *key,
            final(self).spec_get(*key).m_type == IdoItemType::INTEGER,
            final(self).spec_get(*key).m_integer == val,
    {
        let mut item = IdoItem::new();
        item.m_type = IdoItemType::INTEGER;
        item.m_integer = val;
        self.set_item(key, item);
    }

    /// Stores a floating-point value under `key` as its decimal text (the
    /// text a 64-bit float renders to), replacing any prior value and type
    /// there and renewing the key's order position.
    pub fn set_float_text(&mut self, key: &IdoKeyT, val: String)
        ensures
            set_transition(*old(self), *final(self), *key),
            final(self).spec_get(*key).m_key == *key,
            final(self).spec_get(*key).m_type == IdoItemType::FLOAT,
            final(self).spec_get(*key).m_float_text@ == val@,
    {
        let mut item = IdoItem::new();
        item.m_type = IdoItemType::FLOAT;
        item.m_float_text = val;
        self.set_item(key, item);
    }

    /// Empties the container: no entries, no order slots, and the counter
    /// starts again at zero, as in a fresh container.
    pub fn clear(&mut self)
        ensures
            final(self).spec_size() == 0,
            final(self).spec_order().len() == 0,
            forall|k: IdoKeyT| !final(self).spec_contains(k),
    {
        *self = Ido { m_items: Vec::new(), m_slots: Vec::new(), m_ordered: Vec::new() };
    }

    /// Removes the entry at `key` and turns its order slot, if it had one,
    /// into a gap. Removing an absent key changes nothing and is no error.
    pub fn delete_item(&mut self, key: &IdoKeyT)
        ensures
            !final(self).spec_contains(*key),
            old(self).spec_contains(*key) ==> final(self).spec_size() == old(self).spec_size()
                - 1,
            !old(self).spec_contains(*key) ==> *final(self) == *old(self),
            forall|k2: IdoKeyT|
                k2 != *key ==> final(self).spec_contains(k2) == old(self).spec_contains(k2),
            forall|k2: IdoKeyT|
                k2 != *key && old(self).spec_contains(k2) ==> final(self).spec_get(k2) == old(
                    self,
                ).spec_get(k2) && final(self).spec_slot(k2) == old(self).spec_slot(k2),
            final(self).spec_order() == (match old(self).spec_slot(*key) {
                Some(p) => old(self).spec_order().update(p as int, None),
                None => old(self).spec_order(),
            }),
            forall|q: int|
                0 <= q < final(self).spec_order().len() ==> final(self).spec_order()[q]
                    != Some(*key),
            old(self).spec_slot(*key) matches Some(p) ==> p < old(self).spec_order().len()
                && old(self).spec_order()[p as int] == Some(*key),
    {
        proof {
            use_type_invariant(&*self);
        }
        let ghost pre = *self;
        let ord_len = self.m_ordered.len();
        proof {
            assert(pre.m_ordered@.len() == ord_len);
        }
        let mut work = Ido::new();
        core::mem::swap(&mut work, self);
        let Ido { m_items: mut items, m_slots: mut slots, m_ordered: mut ordered } = work;
        match find_idx(&items, key) {
            Some(i) => {
                proof {
                    pre.lemma_found_is_idx(i as int, *key);
                }
                if let Some(p) = slots[i] {
                    ordered[p] = None;
                }
                items.remove(i);
                slots.remove(i);
            },
            None => {},
        }
        proof {
            let post = Ido { m_items: items, m_slots: slots, m_ordered: ordered };
            lemma_delete_shape(pre, post, *key);
        }
        *self = Ido { m_items: items, m_slots: slots, m_ordered: ordered };
    }
}

impl Ido {
    /// Re-initializes `key` with a fresh, empty array entry through the
    /// ordinary set path (so a fresh order position is consumed).
    fn empty_array(&mut self, key: &IdoKeyT)
        ensures
            set_transition(*old(self), *final(self), *key),
            final(self).spec_get(*key).m_key == *key,
            final(self).spec_get(*key).m_type == IdoItemType::ARRAY,
            final(self).spec_get(*key).m_array@.len() == 0,
    {
        let mut item = IdoItem::new();
        item.m_type = IdoItemType::ARRAY;
        item.m_array = Vec::new();
        self.set_item(key, item);
    }

    /// Appends the container `data` to the array stored at `key`. When the
    /// key is absent or holds a non-array value, the entry is first
    /// re-initialized as an empty array through the ordinary set path
    /// (consuming a fresh order position, like an overwrite); the append
    /// itself consumes no order position. Every other entry is untouched.
    pub fn append_array(&mut self, key: &IdoKeyT, data: Ido)
        ensures
            final(self).spec_contains(*key),
            final(self).spec_get(*key).m_key == *key,
            final(self).spec_get(*key).m_type == IdoItemType::ARRAY,
            old(self).spec_contains(*key) && old(self).spec_get(*key).m_type
                == IdoItemType::ARRAY ==> {
                &&& final(self).spec_get(*key).m_array@ == old(self).spec_get(
                    *key,
                ).m_array@.push(data)
                &&& final(self).spec_order() == old(self).spec_order()
                &&& final(self).spec_slot(*key) == old(self).spec_slot(*key)
                &&& final(self).spec_size() == old(self).spec_size()
            },
            !(old(self).spec_contains(*key) && old(self).spec_get(*key).m_type
                == IdoItemType::ARRAY) ==> {
                &&& final(self).spec_get(*key).m_array@ =~= seq![data]
                &&& final(self).spec_slot(*key) == Some(old(self).spec_order().len() as usize)
                &&& final(self).spec_order() == (match old(self).spec_slot(*key) {
                    Some(p) => old(self).spec_order().update(p as int, None).push(Some(*key)),
                    None => old(self).spec_order().push(Some(*key)),
                })
                &&& final(self).spec_size() == old(self).spec_size() + (if old(
                    self,
                ).spec_contains(*key) {
                    0int
                } else {
                    1int
                })
            },
            forall|k2: IdoKeyT|
                k2 != *key ==> final(self).spec_contains(k2) == old(self).spec_contains(k2),
            forall|k2: IdoKeyT|
                k2 != *key && old(self).spec_contains(k2) ==> final(self).spec_get(k2) == old(
                    self,
                ).spec_get(k2) && final(self).spec_slot(k2) == old(self).spec_slot(k2),
    {
        proof {
            use_type_invariant(&*self);
        }
        let has_array = match find_idx(&self.m_items, key) {
            Some(i) => {
                proof {
                    self.lemma_found_is_idx(i as int, *key);
                }
                self.m_items[i].m_type == IdoItemType::ARRAY
            },
            None => false,
        };
        if !has_array {
            self.empty_array(key);
        }
        let ghost mid = *self;
        proof {
            use_type_invariant(&*self);
        }
        let mut work = Ido::new();
        core::mem::swap(&mut work, self);
        let Ido { m_items: mut items, m_slots: slots, m_ordered: ordered } = work;
        match find_idx(&items, key) {
            Some(i) => {
                proof {
                    mid.lemma_found_is_idx(i as int, *key);
                }
                let ghost before = items@;
                items[i].m_array.push(data);
                proof {
                    assert(items@ =~= before.update(
                        i as int,
                        IdoItem { m_array: items@[i as int].m_array, ..before[i as int] },
                    ));
                }
            },
            None => {
                proof {
                    assert(false);
                }
            },
        }
        proof {
            let post = Ido { m_items: items, m_slots: slots, m_ordered: ordered };
            lemma_payload_update_shape(mid, post, mid.idx_of(*key));
        }
        *self = Ido { m_items: items, m_slots: slots, m_ordered: ordered };
    }
}

/// Whether some entry of `s` carries key `k`.
pub(crate) open spec fn seq_has_key(s: Seq<IdoItem>, k: IdoKeyT) -> bool {
    exists|t: int| 0 <= t < s.len() && s[t].m_key == k
}

impl Ido {
    /// Adopts every entry of `other` (as a deep copy): an entry whose key
    /// already exists is replaced in place and keeps its order slot; a
    /// fresh key is added with no order slot at all, so it is skipped by
    /// ordered iteration and serialization. The order index itself is
    /// untouched. This bypass of order bookkeeping is deliberate and
    /// contractual.
    #[verifier::rlimit(60)]
    pub fn update(&mut self, other: &Ido)
        ensures
            forall|k: IdoKeyT|
                final(self).spec_contains(k) == (old(self).spec_contains(k)
                    || other.spec_contains(k)),
            final(self).spec_order() == old(self).spec_order(),
            forall|k: IdoKeyT|
                other.spec_contains(k) ==> item_equiv(
                    other.spec_get(k),
                    final(self).spec_get(k),
                ),
            forall|k: IdoKeyT|
                !other.spec_contains(k) && old(self).spec_contains(k)
                    ==> final(self).spec_get(k) == old(self).spec_get(k),
            forall|k: IdoKeyT|
                old(self).spec_contains(k)
                    ==> final(self).spec_slot(k) == old(self).spec_slot(k),
            forall|k: IdoKeyT|
                !old(self).spec_contains(k) ==> final(self).spec_slot(k) is None,
            final(self).spec_keys() == old(self).spec_keys().union(other.spec_keys()),
            final(self).spec_keys().finite(),
            final(self).spec_size() == final(self).spec_keys().len(),
    {
        proof {
            use_type_invariant(&*self);
            use_type_invariant(other);
        }
        let ghost pre = *self;
        let mut work = Ido::new();
        core::mem::swap(&mut work, self);
        let Ido { m_items: mut items, m_slots: mut slots, m_ordered: ordered } = work;
        let ghost pre_n = pre.m_items@.len() as int;
        let mut j: usize = 0;
        while j < other.m_items.len()
            invariant
                pre.inv(),
                other.inv(),
                pre_n == pre.m_items@.len(),
                j <= other.m_items@.len(),
                ordered@ == pre.m_ordered@,
                slots@.len() == items@.len(),
                items@.len() >= pre_n,
                forall|t: int|
                    0 <= t < pre_n ==> (#[trigger] items@[t]).m_key == pre.m_items@[t].m_key
                        && slots@[t] == pre.m_slots@[t],
                forall|t: int|
                    pre_n <= t < items@.len() ==> (#[trigger] slots@[t]) is None
                        && !pre.spec_contains(items@[t].m_key),
                forall|t1: int, t2: int|
                    0 <= t1 < t2 < items@.len() ==> items@[t1].m_key != items@[t2].m_key,
                forall|t: int|
                    0 <= t < items@.len() ==> (if other.spec_contains(
                        (#[trigger] items@[t]).m_key,
                    ) && other.idx_of(items@[t].m_key) < j {
                        item_equiv(other.spec_get(items@[t].m_key), items@[t])
                    } else {
                        t < pre_n && items@[t] == pre.m_items@[t]
                    }),
                forall|k: IdoKeyT|
                    #[trigger] other.spec_contains(k) && other.idx_of(k) < j ==> seq_has_key(
                        items@,
                        k,
                    ),
            decreases other.m_items@.len() - j,
        {
            let k = other.m_items[j].m_key;
            proof {
                other.lemma_found_is_idx(j as int, k);
            }
            let c = (&other.m_items[j]).clone();
            proof {
                assert(c.m_key == k);
            }
            let ghost items0 = items@;
            let found = find_idx(&items, &k);
            match found {
                Some(i) => {
                    items[i] = c;
                    proof {
                        assert(items@ == items0.update(i as int, c));
                        assert(items0[i as int].m_key == k);
                    }
                },
                None => {
                    items.push(c);
                    slots.push(None);
                    proof {
                        assert(items@ == items0.push(c));
                    }
                },
            }
            j = j + 1;
            proof {
                assert forall|t: int|
                    pre_n <= t < items@.len() implies (#[trigger] slots@[t]) is None
                        && !pre.spec_contains(items@[t].m_key) by {
                    if found is Some {
                        let i = found->0 as int;
                        assert(items@ == items0.update(i, c));
                        if t == i {
                            assert(items0.update(i, c)[t] == c);
                            assert(items@[t] == c);
                            assert(items0[t].m_key == k);
                            assert(items@[t].m_key == items0[t].m_key);
                        } else {
                            assert(items0.update(i, c)[t] == items0[t]);
                            assert(items@[t] == items0[t]);
                        }
                    } else {
                        assert(items@ == items0.push(c));
                        if t < items0.len() {
                            assert(items0.push(c)[t] == items0[t]);
                            assert(items@[t] == items0[t]);
                        } else {
                            assert(items0.push(c)[t] == c);
                            assert(items@[t].m_key == k);
                            if pre.spec_contains(k) {
                                let s = pre.idx_of(k);
                                assert(pre.m_items@[s].m_key == k);
                                assert(items0[s].m_key == k);
                                assert(false);
                            }
                        }
                    }
                }
                assert forall|t: int|
                    0 <= t < items@.len() implies (if other.spec_contains(
                        (#[trigger] items@[t]).m_key,
                    ) && other.idx_of(items@[t].m_key) < j {
                        item_equiv(other.spec_get(items@[t].m_key), items@[t])
                    } else {
                        t < pre_n && items@[t] == pre.m_items@[t]
                    }) by {
                    let k2 = items@[t].m_key;
                    if k2 == k {
                        assert(items@[t] == c);
                        assert(other.spec_get(k) == other.m_items@[j - 1]);
                    } else {
                        assert(items@[t] == items0[t]);
                        if other.spec_contains(k2) {
                            assert(other.m_items@[other.idx_of(k2)].m_key == k2);
                            assert(other.idx_of(k2) != j - 1);
                        }
                    }
                }
                assert forall|k2: IdoKeyT|
                    #[trigger] other.spec_contains(k2) && other.idx_of(k2) < j implies seq_has_key(
                    items@,
                    k2,
                ) by {
                    if k2 == k {
                        if found is Some {
                            assert(items@[found->0 as int].m_key == k);
                        } else {
                            assert(items@[items@.len() - 1].m_key == k);
                        }
                    } else {
                        assert(other.m_items@[other.idx_of(k2)].m_key == k2);
                        if other.idx_of(k2) < j - 1 {
                            let t = choose|t: int|
                                0 <= t < items0.len() && items0[t].m_key == k2;
                            assert(items@[t].m_key == k2);
                        }
                    }
                }
            }
        }
        proof {
            let post = Ido { m_items: items, m_slots: slots, m_ordered: ordered };
            lemma_update_shape(pre, *other, post);
        }
        *self = Ido { m_items: items, m_slots: slots, m_ordered: ordered };
    }
}

/// The whole-update reasoning: from the facts the adoption loop maintains,
/// conclude the invariant of the post-state and the public update facts.
#[verifier::rlimit(60)]
proof fn lemma_update_shape(pre: Ido, other: Ido, post: Ido)
    requires
        pre.inv(),
        other.inv(),
        post.m_ordered@ == pre.m_ordered@,
        post.m_slots@.len() == post.m_items@.len(),
        post.m_items@.len() >= pre.m_items@.len(),
        forall|t: int|
            0 <= t < pre.m_items@.len() ==> (#[trigger] post.m_items@[t]).m_key
                == pre.m_items@[t].m_key && post.m_slots@[t] == pre.m_slots@[t],
        forall|t: int|
            pre.m_items@.len() <= t < post.m_items@.len() ==> (#[trigger] post.m_slots@[t])
                is None && !pre.spec_contains(post.m_items@[t].m_key),
        forall|t1: int, t2: int|
            0 <= t1 < t2 < post.m_items@.len() ==> post.m_items@[t1].m_key
                != post.m_items@[t2].m_key,
        forall|t: int|
            0 <= t < post.m_items@.len() ==> (if other.spec_contains(
                (#[trigger] post.m_items@[t]).m_key,
            ) {
                item_equiv(other.spec_get(post.m_items@[t].m_key), post.m_items@[t])
            } else {
                t < pre.m_items@.len() && post.m_items@[t] == pre.m_items@[t]
            }),
        forall|k: IdoKeyT|
            #[trigger] other.spec_contains(k) ==> seq_has_key(post.m_items@, k),
    ensures
        post.inv(),
        forall|k: IdoKeyT|
            post.spec_contains(k) == (pre.spec_contains(k) || other.spec_contains(k)),
        post.spec_order() == pre.spec_order(),
        forall|k: IdoKeyT|
            other.spec_contains(k) ==> item_equiv(other.spec_get(k), post.spec_get(k)),
        forall|k: IdoKeyT|
            !other.spec_contains(k) && pre.spec_contains(k) ==> post.spec_get(k)
                == pre.spec_get(k),
        forall|k: IdoKeyT|
            pre.spec_contains(k) ==> post.spec_slot(k) == pre.spec_slot(k),
        forall|k: IdoKeyT| !pre.spec_contains(k) ==> post.spec_slot(k) is None,
        post.spec_keys() == pre.spec_keys().union(other.spec_keys()),
        post.spec_keys().finite(),
        post.spec_size() == post.spec_keys().len(),
{
    let pre_n = pre.m_items@.len() as int;
    assert forall|q: int|
        0 <= q < post.m_ordered@.len() && (#[trigger] post.m_ordered@[q])
            is Some implies exists|t: int|
        0 <= t < post.m_items@.len() && post.m_items@[t].m_key == post.m_ordered@[q]->0
            && post.m_slots@[t] == Some(q as usize) by {
        let k2 = post.m_ordered@[q]->0;
        let t = choose|t: int|
            0 <= t < pre.m_items@.len() && pre.m_items@[t].m_key == k2 && pre.m_slots@[t]
                == Some(q as usize);
        assert(post.m_items@[t].m_key == k2 && post.m_slots@[t] == Some(q as usize));
    }
    assert(post.inv());
    assert forall|k: IdoKeyT| post.spec_contains(k) == (pre.spec_contains(k)
        || other.spec_contains(k)) by {
        if post.spec_contains(k) {
            let t = post.idx_of(k);
            if t < pre_n {
                assert(pre.m_items@[t].m_key == k);
            } else {
                assert(other.spec_contains(post.m_items@[t].m_key));
            }
        }
        if pre.spec_contains(k) {
            let t = pre.idx_of(k);
            assert(post.m_items@[t].m_key == k);
        }
        if other.spec_contains(k) {
            assert(seq_has_key(post.m_items@, k));
        }
    }
    assert forall|k: IdoKeyT| other.spec_contains(k) implies item_equiv(
        other.spec_get(k),
        post.spec_get(k),
    ) by {
        let t = post.idx_of(k);
        assert(post.m_items@[t].m_key == k);
        assert(other.spec_contains(post.m_items@[t].m_key));
    }
    assert forall|k: IdoKeyT| !other.spec_contains(k) && pre.spec_contains(k) implies post.spec_get(
        k,
    ) == pre.spec_get(k) by {
        let t = pre.idx_of(k);
        assert(post.m_items@[t].m_key == k);
        assert(post.idx_of(k) == t);
    }
    assert forall|k: IdoKeyT| pre.spec_contains(k) implies post.spec_slot(k) == pre.spec_slot(
        k,
    ) by {
        let t = pre.idx_of(k);
        assert(post.m_items@[t].m_key == k);
        assert(post.idx_of(k) == t);
    }
    assert forall|k: IdoKeyT| !pre.spec_contains(k) && post.spec_contains(k) implies post.spec_slot(
        k,
    ) is None by {
        let t = post.idx_of(k);
        if t < pre_n {
            assert(pre.m_items@[t].m_key == k);
            assert(false);
        }
    }
    assert(post.spec_keys() =~= pre.spec_keys().union(other.spec_keys()));
    post.lemma_size_is_key_count();
}

/// Replacing one entry's payload in place, without touching its key, its
/// slot or the order index, preserves the invariant and every other entry.
proof fn lemma_payload_update_shape(pre: Ido, post: Ido, i: int)
    requires
        pre.inv(),
        0 <= i < pre.m_items@.len(),
        post.m_items@.len() == pre.m_items@.len(),
        post.m_items@[i].m_key == pre.m_items@[i].m_key,
        forall|t: int| 0 <= t < pre.m_items@.len() && t != i ==> post.m_items@[t] == pre.m_items@[t],
        post.m_slots@ == pre.m_slots@,
        post.m_ordered@ == pre.m_ordered@,
    ensures
        post.inv(),
        post.spec_size() == pre.spec_size(),
        post.spec_order() == pre.spec_order(),
        forall|k2: IdoKeyT| post.spec_contains(k2) == pre.spec_contains(k2),
        forall|k2: IdoKeyT|
            pre.spec_contains(k2) ==> post.idx_of(k2) == pre.idx_of(k2) && post.spec_slot(k2)
                == pre.spec_slot(k2),
        forall|k2: IdoKeyT|
            pre.spec_contains(k2) && k2 != pre.m_items@[i].m_key ==> post.spec_get(k2)
                == pre.spec_get(k2),
        post.spec_contains(pre.m_items@[i].m_key),
        post.spec_get(pre.m_items@[i].m_key) == post.m_items@[i],
{
    assert(forall|t: int|
        0 <= t < post.m_items@.len() ==> post.m_items@[t].m_key == pre.m_items@[t].m_key);
    assert forall|q: int|
        0 <= q < post.m_ordered@.len() && (#[trigger] post.m_ordered@[q])
            is Some implies exists|t: int|
        0 <= t < post.m_items@.len() && post.m_items@[t].m_key == post.m_ordered@[q]->0
            && post.m_slots@[t] == Some(q as usize) by {
        let k2 = post.m_ordered@[q]->0;
        let t = choose|t: int|
            0 <= t < pre.m_items@.len() && pre.m_items@[t].m_key == k2 && pre.m_slots@[t]
                == Some(q as usize);
        assert(post.m_items@[t].m_key == k2 && post.m_slots@[t] == Some(q as usize));
    }
    assert(post.inv());
    assert forall|k2: IdoKeyT| post.spec_contains(k2) == pre.spec_contains(k2) by {
        if post.spec_contains(k2) {
            let t = post.idx_of(k2);
            assert(pre.m_items@[t].m_key == k2);
        }
        if pre.spec_contains(k2) {
            let t = pre.idx_of(k2);
            assert(post.m_items@[t].m_key == k2);
        }
    }
    assert forall|k2: IdoKeyT| pre.spec_contains(k2) implies post.idx_of(k2) == pre.idx_of(k2)
        && post.spec_slot(k2) == pre.spec_slot(k2) by {
        let t = pre.idx_of(k2);
        assert(post.m_items@[t].m_key == k2);
        assert(post.idx_of(k2) == t);
    }
    assert(post.idx_of(pre.m_items@[i].m_key) == i) by {
        assert(post.m_items@[i].m_key == pre.m_items@[i].m_key);
    }
}

/// The one-delete reasoning: from a pre-state satisfying the invariant and
/// a post-state built by the body of `delete_item`, conclude the invariant
/// of the post-state and the public facts about the deletion.
proof fn lemma_delete_shape(pre: Ido, post: Ido, k: IdoKeyT)
    requires
        pre.inv(),
        pre.m_ordered@.len() <= usize::MAX,
        ({
            if pre.spec_contains(k) {
                let i = pre.idx_of(k);
                &&& post.m_items@ == pre.m_items@.remove(i)
                &&& post.m_slots@ == pre.m_slots@.remove(i)
                &&& post.m_ordered@ == (match pre.m_slots@[i] {
                    Some(p) => pre.m_ordered@.update(p as int, None),
                    None => pre.m_ordered@,
                })
            } else {
                post == pre
            }
        }),
    ensures
        post.inv(),
        !post.spec_contains(k),
        forall|q: int|
            0 <= q < post.m_ordered@.len() ==> post.m_ordered@[q] != Some(k),
        pre.spec_contains(k) ==> post.spec_size() == pre.spec_size() - 1,
        forall|k2: IdoKeyT| k2 != k ==> post.spec_contains(k2) == pre.spec_contains(k2),
        forall|k2: IdoKeyT|
            k2 != k && pre.spec_contains(k2) ==> post.spec_get(k2) == pre.spec_get(k2)
                && post.spec_slot(k2) == pre.spec_slot(k2),
        post.spec_order() == (match pre.spec_slot(k) {
            Some(p) => pre.spec_order().update(p as int, None),
            None => pre.spec_order(),
        }),
        pre.spec_slot(k) matches Some(p) ==> p < pre.spec_order().len()
            && pre.spec_order()[p as int] == Some(k),
{
    if !pre.spec_contains(k) {
        assert(pre.spec_slot(k) is None);
        assert forall|q: int|
            0 <= q < post.m_ordered@.len() implies post.m_ordered@[q] != Some(k) by {
            if post.m_ordered@[q] == Some(k) {
                let t = choose|t: int|
                    0 <= t < pre.m_items@.len() && pre.m_items@[t].m_key == k
                        && pre.m_slots@[t] == Some(q as usize);
                assert(pre.m_items@[t].m_key == k);
                assert(false);
            }
        }
    } else {
        lemma_delete_present(pre, post, k);
    }
}

/// The present-key case of the delete reasoning.
proof fn lemma_delete_present(pre: Ido, post: Ido, k: IdoKeyT)
    requires
        pre.inv(),
        pre.m_ordered@.len() <= usize::MAX,
        pre.spec_contains(k),
        ({
            let i = pre.idx_of(k);
            &&& post.m_items@ == pre.m_items@.remove(i)
            &&& post.m_slots@ == pre.m_slots@.remove(i)
            &&& post.m_ordered@ == (match pre.m_slots@[i] {
                Some(p) => pre.m_ordered@.update(p as int, None),
                None => pre.m_ordered@,
            })
        }),
    ensures
        post.inv(),
        !post.spec_contains(k),
        forall|q: int|
            0 <= q < post.m_ordered@.len() ==> post.m_ordered@[q] != Some(k),
        post.spec_size() == pre.spec_size() - 1,
        forall|k2: IdoKeyT| k2 != k ==> post.spec_contains(k2) == pre.spec_contains(k2),
        forall|k2: IdoKeyT|
            k2 != k && pre.spec_contains(k2) ==> post.spec_get(k2) == pre.spec_get(k2)
                && post.spec_slot(k2) == pre.spec_slot(k2),
        pre.spec_slot(k) matches Some(p) ==> p < pre.spec_order().len()
            && pre.spec_order()[p as int] == Some(k),
        post.spec_order() == (match pre.spec_slot(k) {
            Some(p) => pre.spec_order().update(p as int, None),
            None => pre.spec_order(),
        }),
{
    let n = pre.m_items@.len();
    let i = pre.idx_of(k);
    let ord0 = pre.m_ordered@;
    assert(0 <= i < n && pre.m_items@[i].m_key == k);
    // after removal, entry t of the post-state is entry (t or t+1) of the pre-state
    assert(forall|t: int|
        0 <= t < n - 1 ==> post.m_items@[t] == (if t < i {
            pre.m_items@[t]
        } else {
            pre.m_items@[t + 1]
        }));
    assert(forall|t: int|
        0 <= t < n - 1 ==> post.m_slots@[t] == (if t < i {
            pre.m_slots@[t]
        } else {
            pre.m_slots@[t + 1]
        }));
    assert forall|t: int|
        0 <= t < post.m_items@.len() && (#[trigger] post.m_slots@[t]) is Some implies post.m_slots@[t]->0
        < post.m_ordered@.len() && post.m_ordered@[post.m_slots@[t]->0 as int] == Some(
        post.m_items@[t].m_key,
    ) by {
        let s = if t < i {
            t
        } else {
            t + 1
        };
        let q = pre.m_slots@[s]->0;
        assert(ord0[q as int] == Some(pre.m_items@[s].m_key));
        if pre.m_slots@[i] is Some && q == pre.m_slots@[i]->0 {
            assert(ord0[q as int] == Some(k));
            assert(pre.m_items@[s].m_key == k);
            assert(s == i);
            assert(false);
        }
    }
    assert forall|q: int|
        0 <= q < post.m_ordered@.len() && (#[trigger] post.m_ordered@[q])
            is Some implies exists|t: int|
        0 <= t < post.m_items@.len() && post.m_items@[t].m_key == post.m_ordered@[q]->0
            && post.m_slots@[t] == Some(q as usize) by {
        let k2 = post.m_ordered@[q]->0;
        if pre.m_slots@[i] is Some && q == pre.m_slots@[i]->0 {
            assert(post.m_ordered@[q] is None);
            assert(false);
        }
        assert(ord0[q] == Some(k2));
        let s = choose|s: int|
            0 <= s < n && pre.m_items@[s].m_key == k2 && pre.m_slots@[s] == Some(q as usize);
        if s == i {
            assert(pre.m_slots@[i] == Some(q as usize));
            assert(false);
        }
        let t = if s < i {
            s
        } else {
            s - 1
        };
        assert(post.m_items@[t].m_key == k2 && post.m_slots@[t] == Some(q as usize));
    }
    assert(post.inv());
    assert forall|k2: IdoKeyT| k2 != k && pre.spec_contains(k2) implies post.spec_get(k2)
        == pre.spec_get(k2) && post.spec_slot(k2) == pre.spec_slot(k2) by {
        let s = pre.idx_of(k2);
        let t = if s < i {
            s
        } else {
            s - 1
        };
        assert(post.m_items@[t].m_key == k2);
        assert(post.idx_of(k2) == t);
    }
    assert forall|k2: IdoKeyT| k2 != k implies post.spec_contains(k2) == pre.spec_contains(
        k2,
    ) by {
        if post.spec_contains(k2) {
            let t = post.idx_of(k2);
            let s = if t < i {
                t
            } else {
                t + 1
            };
            assert(pre.m_items@[s].m_key == k2);
        }
        if pre.spec_contains(k2) {
            let s = pre.idx_of(k2);
            let t = if s < i {
                s
            } else {
                s - 1
            };
            assert(post.m_items@[t].m_key == k2);
        }
    }
    if post.spec_contains(k) {
        let t = post.idx_of(k);
        let s = if t < i {
            t
        } else {
            t + 1
        };
        assert(pre.m_items@[s].m_key == k);
        assert(s == i);
        assert(false);
    }
    assert forall|q: int|
        0 <= q < post.m_ordered@.len() implies post.m_ordered@[q] != Some(k) by {
        if post.m_ordered@[q] == Some(k) {
            let t = choose|t: int|
                0 <= t < post.m_items@.len() && post.m_items@[t].m_key == k && post.m_slots@[t]
                    == Some(q as usize);
            assert(post.m_items@[t].m_key == k);
            assert(false);
        }
    }
}

/// The one-set reasoning: from a pre-state satisfying the invariant and a
/// post-state built by the body of `set_item`, conclude the invariant of the
/// post-state and the public transition facts.
proof fn lemma_set_shape(pre: Ido, post: Ido, k: IdoKeyT, stored: IdoItem, newpos: usize)
    requires
        pre.inv(),
        stored.m_key == k,
        newpos as int == pre.m_ordered@.len(),
        ({
            let n = pre.m_items@.len();
            if pre.spec_contains(k) {
                let i = pre.idx_of(k);
                &&& post.m_items@ == pre.m_items@.update(i, stored)
                &&& post.m_slots@ == pre.m_slots@.update(i, Some(newpos))
                &&& post.m_ordered@ == (match pre.m_slots@[i] {
                    Some(p) => pre.m_ordered@.update(p as int, None).push(Some(k)),
                    None => pre.m_ordered@.push(Some(k)),
                })
            } else {
                &&& post.m_items@ == pre.m_items@.push(stored)
                &&& post.m_slots@ == pre.m_slots@.push(Some(newpos))
                &&& post.m_ordered@ == pre.m_ordered@.push(Some(k))
            }
        }),
    ensures
        post.inv(),
        set_transition(pre, post, k),
        post.spec_contains(k),
        post.spec_get(k) == stored,
{
    let n = pre.m_items@.len();
    let ord0 = pre.m_ordered@;
    let npi = newpos as int;
    if pre.spec_contains(k) {
        let i = pre.idx_of(k);
        assert(0 <= i < n && pre.m_items@[i].m_key == k);
        // uniqueness carries over: the key sequence is unchanged
        assert(forall|t: int| 0 <= t < n ==> post.m_items@[t].m_key == pre.m_items@[t].m_key);
        // no other entry can hold the same slot as the overwritten entry
        assert forall|t: int|
            0 <= t < n && t != i && (#[trigger] post.m_slots@[t]) is Some implies post.m_slots@[t]->0
            < post.m_ordered@.len() && post.m_ordered@[post.m_slots@[t]->0 as int] == Some(
            post.m_items@[t].m_key,
        ) by {
            let q = post.m_slots@[t]->0;
            assert(pre.m_slots@[t] == Some(q));
            assert(ord0[q as int] == Some(pre.m_items@[t].m_key));
            if pre.m_slots@[i] is Some {
                let p = pre.m_slots@[i]->0;
                if q == p {
                    assert(ord0[p as int] == Some(k));
                    assert(pre.m_items@[t].m_key == k);
                    assert(false);
                }
            }
        }
        assert forall|q: int|
            0 <= q < post.m_ordered@.len() && (#[trigger] post.m_ordered@[q])
                is Some implies exists|t: int|
            0 <= t < post.m_items@.len() && post.m_items@[t].m_key == post.m_ordered@[q]->0
                && post.m_slots@[t] == Some(q as usize) by {
            let k2 = post.m_ordered@[q]->0;
            if q == npi {
                assert(post.m_items@[i].m_key == k && post.m_slots@[i] == Some(newpos));
            } else {
                if pre.m_slots@[i] is Some && q == pre.m_slots@[i]->0 {
                    assert(post.m_ordered@[q] is None);
                    assert(false);
                }
                assert(ord0[q] == Some(k2));
                let t = choose|t: int|
                    0 <= t < n && pre.m_items@[t].m_key == k2 && pre.m_slots@[t] == Some(
                        q as usize,
                    );
                if t == i {
                    assert(pre.m_slots@[i] == Some(q as usize));
                    assert(q == pre.m_slots@[i]->0);
                    assert(false);
                }
                assert(post.m_items@[t].m_key == k2 && post.m_slots@[t] == Some(q as usize));
            }
        }
        assert(post.inv());
        assert(post.idx_of(k) == i) by {
            assert(post.m_items@[i].m_key == k);
        }
        assert forall|k2: IdoKeyT| k2 != k && pre.spec_contains(k2) implies post.spec_get(k2)
            == pre.spec_get(k2) && post.spec_slot(k2) == pre.spec_slot(k2) by {
            let t = pre.idx_of(k2);
            assert(post.m_items@[t].m_key == k2);
            assert(post.idx_of(k2) == t);
        }
        assert forall|k2: IdoKeyT| k2 != k implies post.spec_contains(k2)
            == pre.spec_contains(k2) by {
            if post.spec_contains(k2) {
                let t = post.idx_of(k2);
                assert(pre.m_items@[t].m_key == k2);
            }
            if pre.spec_contains(k2) {
                let t = pre.idx_of(k2);
                assert(post.m_items@[t].m_key == k2);
            }
        }
        assert(pre.spec_slot(k) == pre.m_slots@[i]);
    } else {
        assert(forall|t: int| 0 <= t < n ==> post.m_items@[t] == pre.m_items@[t]);
        assert(post.m_items@[n as int] == stored);
        assert forall|q: int|
            0 <= q < post.m_ordered@.len() && (#[trigger] post.m_ordered@[q])
                is Some implies exists|t: int|
            0 <= t < post.m_items@.len() && post.m_items@[t].m_key == post.m_ordered@[q]->0
                && post.m_slots@[t] == Some(q as usize) by {
            let k2 = post.m_ordered@[q]->0;
            if q == npi {
                assert(post.m_items@[n as int].m_key == k && post.m_slots@[n as int] == Some(
                    newpos,
                ));
            } else {
                assert(ord0[q] == Some(k2));
                let t = choose|t: int|
                    0 <= t < n && pre.m_items@[t].m_key == k2 && pre.m_slots@[t] == Some(
                        q as usize,
                    );
                assert(post.m_items@[t].m_key == k2 && post.m_slots@[t] == Some(q as usize));
            }
        }
        assert(post.inv());
        assert(post.idx_of(k) == n) by {
            assert(post.m_items@[n as int].m_key == k);
        }
        assert forall|k2: IdoKeyT| k2 != k && pre.spec_contains(k2) implies post.spec_get(k2)
            == pre.spec_get(k2) && post.spec_slot(k2) == pre.spec_slot(k2) by {
            let t = pre.idx_of(k2);
            assert(post.m_items@[t].m_key == k2);
            assert(post.idx_of(k2) == t);
        }
        assert forall|k2: IdoKeyT| k2 != k implies post.spec_contains(k2)
            == pre.spec_contains(k2) by {
            if post.spec_contains(k2) {
                let t = post.idx_of(k2);
                if t < n {
                    assert(pre.m_items@[t].m_key == k2);
                }
            }
            if pre.spec_contains(k2) {
                let t = pre.idx_of(k2);
                assert(post.m_items@[t].m_key == k2);
            }
        }
        assert(pre.spec_slot(k) is None);
    }
}

/// The serialized text of a container: the comma-joined segments of the
/// entries that ordered iteration reaches (every occupied order position,
/// in position order; gaps are skipped). A scalar entry contributes one
/// `key=value` segment; an array entry contributes one `key=[nested]`
/// segment per element, and none at all when it is empty.
pub closed spec fn ido_text(d: Ido) -> Seq<char>
    decreases d, 2int, 0int,
{
    crate::render::join_comma(ido_segs(d, 0))
}

/// The segments contributed by ordered positions `p` and onwards. A gap,
/// or a position whose key has no entry, contributes nothing and the walk
/// continues with the next position.
pub(crate) closed spec fn ido_segs(d: Ido, p: int) -> Seq<Seq<char>>
    decreases d, 1int, d.m_ordered@.len() - p,
{
    if 0 <= p < d.m_ordered@.len() {
        (if d.m_ordered@[p] is Some && d.spec_contains(d.m_ordered@[p]->0) {
            let k = d.m_ordered@[p]->0;
            let it = d.spec_get(k);
            if it.m_type == IdoItemType::ARRAY {
                arr_segs(d, k, 0)
            } else {
                seq![crate::render::spec_dec_int(k as int) + "="@ + crate::item::item_text(it)]
            }
        } else {
            Seq::empty()
        }) + ido_segs(d, p + 1)
    } else {
        Seq::empty()
    }
}

/// The segments contributed by elements `j` and onwards of the array entry
/// at key `k`: one `key=[nested]` segment per element.
pub(crate) closed spec fn arr_segs(d: Ido, k: IdoKeyT, j: int) -> Seq<Seq<char>>
    decreases d, 0int, d.spec_get(k).m_array@.len() - j,
{
    proof {
        if d.spec_contains(k) {
            let i = d.idx_of(k);
            if 0 <= j < d.m_items@[i].m_array@.len() {
                assert(decreases_to!(d => d.m_items));
                assert(decreases_to!(d.m_items => d.m_items@));
                assert(decreases_to!(d.m_items@ => d.m_items@[i]));
                assert(decreases_to!(d.m_items@[i] => d.m_items@[i].m_array));
                assert(decreases_to!(d.m_items@[i].m_array => d.m_items@[i].m_array@));
                assert(decreases_to!(d.m_items@[i].m_array@ => d.m_items@[i].m_array@[j]));
            }
        }
    }
    if d.spec_contains(k) && 0 <= j < d.spec_get(k).m_array@.len() {
        seq![
            crate::render::spec_dec_int(k as int) + "=["@ + ido_text(d.spec_get(k).m_array@[j])
                + "]"@,
        ] + arr_segs(d, k, j + 1)
    } else {
        Seq::empty()
    }
}

/// The first occupied order position of `d` at or after position `p`, or
/// the order index's length when there is none.
pub open spec fn next_occupied(d: Ido, p: int) -> int
    decreases d.spec_order().len() - p,
{
    if 0 <= p < d.spec_order().len() {
        if d.spec_order()[p] is Some {
            p
        } else {
            next_occupied(d, p + 1)
        }
    } else {
        d.spec_order().len() as int
    }
}

impl<'a> OrderedIdoIterator<'a> {
    /// The container being walked.
    pub closed spec fn iter_container(self) -> Ido {
        *self.m_ido
    }

    /// The next order position to visit.
    pub closed spec fn iter_pos(self) -> int {
        self.m_curr as int
    }

    /// The next entry in order-position order: the key at the first
    /// occupied position at or after the current one, with a deep copy of
    /// its item. Gaps left by overwrites and deletions are skipped; the
    /// walk ends at the end of the order index.
    pub fn next(&mut self) -> (r: Option<(IdoKeyT, IdoItem)>)
        ensures
            final(self).iter_container() == old(self).iter_container(),
            ({
                let d = old(self).iter_container();
                let p = old(self).iter_pos();
                let q = next_occupied(d, p);
                if p >= 0 && q < d.spec_order().len() {
                    &&& r matches Some(pair) && pair.0 == d.spec_order()[q]->0
                        && d.spec_contains(pair.0) && item_equiv(d.spec_get(pair.0), pair.1)
                    &&& final(self).iter_pos() == q + 1
                } else {
                    r is None && final(self).iter_pos() >= p
                }
            }),
    {
        proof {
            use_type_invariant(&*self.m_ido);
        }
        let ghost d = *self.m_ido;
        let ghost p0 = self.m_curr as int;
        while self.m_curr < self.m_ido.m_ordered.len()
            invariant
                d == *old(self).m_ido,
                self.m_ido == old(self).m_ido,
                d.inv(),
                p0 == old(self).iter_pos(),
                0 <= p0 <= self.m_curr as int,
                next_occupied(d, p0) == next_occupied(d, self.m_curr as int),
            decreases d.m_ordered@.len() - self.m_curr,
        {
            match self.m_ido.m_ordered[self.m_curr] {
                Some(k) => {
                    proof {
                        let w = choose|t: int|
                            0 <= t < d.m_items@.len() && d.m_items@[t].m_key == k
                                && d.m_slots@[t] == Some(self.m_curr);
                        assert(d.m_items@[w].m_key == k);
                        assert(next_occupied(d, self.m_curr as int) == self.m_curr as int);
                    }
                    let item = match self.m_ido.get_item(&k) {
                        Some(v) => v,
                        None => {
                            proof {
                                assert(false);
                            }
                            IdoItem::new()
                        },
                    };
                    self.m_curr = self.m_curr + 1;
                    return Some((k, item));
                },
                None => {
                    self.m_curr = self.m_curr + 1;
                },
            }
        }
        proof {
            assert(next_occupied(d, self.m_curr as int) == d.m_ordered@.len());
        }
        None
    }
}

impl Ido {
    /// An iterator over this container's entries in order-position order,
    /// starting at position zero; gaps are skipped.
    pub fn into_ordered_iterator(&self) -> (it: OrderedIdoIterator)
        ensures
            it.iter_container() == *self,
            it.iter_pos() == 0,
    {
        OrderedIdoIterator { m_ido: self, m_curr: 0 }
    }
}

impl Ido {
    /// Serializes the container by walking every order position from zero
    /// and comma-joining the occupied positions' segments in position
    /// order; gaps left by overwrites and deletions are skipped, and
    /// entries without an order slot are silently omitted. The walk is
    /// read-only, so an unchanged container always serializes to the same
    /// text.
    #[verifier::rlimit(100)]
    pub fn to_string(&self) -> (r: String)
        ensures
            r@ == ido_text(*self),
        decreases *self,
    {
        proof {
            use_type_invariant(self);
        }
        let ghost d = *self;
        let mut result = String::new();
        let mut emitted = false;
        let ghost mut done: Seq<Seq<char>> = Seq::empty();
        let mut p: usize = 0;
        while p < self.m_ordered.len()
            invariant
                d == *self,
                d.inv(),
                p <= d.m_ordered@.len(),
                ido_segs(d, 0) == done + ido_segs(d, p as int),
                result@ == crate::render::join_comma(done),
                emitted == (done.len() > 0),
            decreases d.m_ordered@.len() - p,
        {
            let k = match self.m_ordered[p] {
                Some(k) => k,
                None => {
                    proof {
                        assert(ido_segs(d, p as int) =~= Seq::<Seq<char>>::empty() + ido_segs(
                            d,
                            p as int + 1,
                        ));
                        assert(ido_segs(d, 0) =~= done + ido_segs(d, p as int + 1));
                    }
                    p = p + 1;
                    continue ;
                },
            };
            let i = match find_idx(&self.m_items, &k) {
                Some(i) => i,
                None => {
                    proof {
                        assert(d.m_ordered@[p as int] is Some);
                        let w = choose|t: int|
                            0 <= t < d.m_items@.len() && d.m_items@[t].m_key == k
                                && d.m_slots@[t] == Some(p);
                        assert(d.m_items@[w].m_key == k);
                        assert(false);
                    }
                    0
                },
            };
            proof {
                d.lemma_found_is_idx(i as int, k);
                assert(d.spec_get(k) == d.m_items@[i as int]);
            }
            let it = &self.m_items[i];
            let key_text = crate::render::render_i32(k);
            if it.m_type == IdoItemType::ARRAY {
                let ghost entry_start = done;
                let mut j: usize = 0;
                while j < it.m_array.len()
                    invariant
                        d == *self,
                        d.inv(),
                        0 <= i < d.m_items@.len(),
                        d.m_items@[i as int].m_key == k,
                        d.spec_contains(k),
                        d.spec_get(k) == d.m_items@[i as int],
                        it == &d.m_items@[i as int],
                        it.m_type == IdoItemType::ARRAY,
                        key_text@ == crate::render::spec_dec_int(k as int),
                        0 <= p < d.m_ordered@.len(),
                        d.m_ordered@[p as int] == Some(k),
                        j <= it.m_array@.len(),
                        ido_segs(d, 0) == done + arr_segs(d, k, j as int) + ido_segs(
                            d,
                            (p + 1) as int,
                        ),
                        result@ == crate::render::join_comma(done),
                        emitted == (done.len() > 0),
                    decreases it.m_array@.len() - j,
                {
                    let nested = &it.m_array[j];
                    proof {
                        assert(decreases_to!(*self => self.m_items));
                        assert(decreases_to!(self.m_items => self.m_items@));
                        assert(decreases_to!(self.m_items@ => self.m_items@[i as int]));
                        assert(decreases_to!(self.m_items@[i as int] => self.m_items@[i as int].m_array));
                        assert(decreases_to!(self.m_items@[i as int].m_array => self.m_items@[i as int].m_array@));
                        assert(decreases_to!(self.m_items@[i as int].m_array@ => self.m_items@[i as int].m_array@[j as int]));
                    }
                    let nested_text = nested.to_string();
                    let ghost seg = crate::render::spec_dec_int(k as int) + "=["@
                        + ido_text(d.spec_get(k).m_array@[j as int]) + "]"@;
                    if emitted {
                        result.append(",");
                    }
                    result.append(key_text.as_str());
                    result.append("=[");
                    result.append(nested_text.as_str());
                    result.append("]");
                    proof {
                        crate::render::lemma_join_comma_append(done, seq![seg]);
                        assert(crate::render::join_comma(seq![seg]) == seg);
                        assert(result@ =~= crate::render::join_comma(done.push(seg)))
                        by {
                            assert(done + seq![seg] =~= done.push(seg));
                            reveal_strlit(",");
                            assert(result@ =~= crate::render::join_comma(done + seq![seg]));
                        }
                        assert(arr_segs(d, k, j as int) == seq![seg] + arr_segs(
                            d,
                            k,
                            j as int + 1,
                        ));
                        assert(ido_segs(d, 0) =~= done.push(seg) + arr_segs(d, k, j as int + 1)
                            + ido_segs(d, (p + 1) as int));
                        done = done.push(seg);
                    }
                    emitted = true;
                    j = j + 1;
                }
                proof {
                    assert(arr_segs(d, k, j as int) =~= Seq::<Seq<char>>::empty());
                    assert(ido_segs(d, 0) =~= done + ido_segs(d, (p + 1) as int));
                }
            } else {
                let txt = match it.as_string() {
                    Some(t) => t,
                    None => {
                        proof {
                            assert(false);
                        }
                        String::new()
                    },
                };
                let ghost seg = crate::render::spec_dec_int(k as int) + "="@
                    + crate::item::item_text(d.spec_get(k));
                if emitted {
                    result.append(",");
                }
                result.append(key_text.as_str());
                result.append("=");
                result.append(txt.as_str());
                proof {
                    crate::render::lemma_join_comma_append(done, seq![seg]);
                    assert(crate::render::join_comma(seq![seg]) == seg);
                    assert(result@ =~= crate::render::join_comma(done.push(seg))) by {
                        assert(done + seq![seg] =~= done.push(seg));
                        reveal_strlit(",");
                        assert(result@ =~= crate::render::join_comma(done + seq![seg]));
                    }
                    assert(ido_segs(d, p as int) == seq![seg] + ido_segs(d, p as int + 1));
                    assert(ido_segs(d, 0) =~= done.push(seg) + ido_segs(d, p as int + 1));
                    done = done.push(seg);
                }
                emitted = true;
            }
            p = p + 1;
        }
        proof {
            assert(ido_segs(d, p as int) =~= Seq::<Seq<char>>::empty());
            assert(ido_segs(d, 0) =~= done);
        }
        result
    }
}

/// The index of the entry with key `key`, if one exists.
pub(crate) fn find_idx(items: &Vec<IdoItem>, key: &IdoKeyT) -> (r: Option<usize>)
    ensures
        match r {
            Some(i) => i < items@.len() && items@[i as int].m_key == *key,
            None => forall|j: int| 0 <= j < items@.len() ==> items@[j].m_key != *key,
        },
{
    let mut i: usize = 0;
    while i < items.len()
        invariant
            i <= items@.len(),
            forall|j: int| 0 <= j < i ==> items@[j].m_key != *key,
        decreases items@.len() - i,
    {
        if items[i].m_key == *key {
            return Some(i);
        }
        i = i + 1;
    }
    None
}

} // verus!
