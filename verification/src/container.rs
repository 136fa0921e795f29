use crate::value::{value_lt, Value};
use vstd::prelude::*;

verus! {

// ---------------------------------------------------------------------------
// The mathematical model of an aggregate map and of its interning store.
// ---------------------------------------------------------------------------

/// The keys of the listing `s` are strictly increasing in the value order.
/// Strictness makes the keys distinct, so a sorted listing is the one
/// canonical listing of its contents ([`lemma_canonical_listing`]).
pub open spec fn sorted_by_key(s: Seq<(Value, Value)>) -> bool {
    forall|i: int, j: int| 0 <= i < j < s.len() ==> value_lt(#[trigger] s[i].0, #[trigger] s[j].0)
}

/// Whether some entry of `s` carries the key `k`.
pub open spec fn has_key(s: Seq<(Value, Value)>, k: Value) -> bool {
    exists|i: int| 0 <= i < s.len() && (#[trigger] s[i]).0 == k
}

/// The contents of the listing `s` as a mathematical map; a later entry for
/// a key overrides an earlier one.
pub open spec fn map_of(s: Seq<(Value, Value)>) -> Map<Value, Value>
    decreases s.len(),
{
    if s.len() == 0 {
        Map::empty()
    } else {
        map_of(s.drop_last()).insert(s.last().0, s.last().1)
    }
}

/// The domain of `map_of(s)` is exactly the set of keys listed in `s`.
pub proof fn lemma_map_of_dom(s: Seq<(Value, Value)>)
    ensures
        forall|k: Value| map_of(s).dom().contains(k) <==> has_key(s, k),
    decreases s.len(),
{
    if s.len() > 0 {
        let p = s.drop_last();
        lemma_map_of_dom(p);
        assert forall|k: Value| map_of(s).dom().contains(k) <==> has_key(s, k) by {
            if map_of(s).dom().contains(k) {
                if k == s.last().0 {
                    assert((#[trigger] s[s.len() - 1]).0 == k);
                    assert(has_key(s, k));
                } else {
                    assert(map_of(p).dom().contains(k));
                    assert(has_key(p, k));
                    let i = choose|i: int| 0 <= i < p.len() && (#[trigger] p[i]).0 == k;
                    assert(p[i] == s[i]);
                    assert((#[trigger] s[i]).0 == k);
                    assert(has_key(s, k));
                }
            }
            if has_key(s, k) {
                let i = choose|i: int| 0 <= i < s.len() && (#[trigger] s[i]).0 == k;
                if i < s.len() - 1 {
                    assert((#[trigger] p[i]) == s[i]);
                    assert(has_key(p, k));
                    assert(map_of(s).dom().contains(k));
                } else {
                    assert(k == s.last().0);
                }
            }
        }
    }
}

/// In a listing with distinct keys, each entry's value is what `map_of`
/// returns for that entry's key.
pub proof fn lemma_map_of_index(s: Seq<(Value, Value)>, i: int)
    requires
        sorted_by_key(s),
        0 <= i < s.len(),
    ensures
        map_of(s).dom().contains(s[i].0),
        map_of(s)[s[i].0] == s[i].1,
    decreases s.len(),
{
    lemma_map_of_dom(s);
    if i < s.len() - 1 {
        assert(value_lt(s[i].0, s[s.len() - 1].0));
        assert(s.drop_last()[i] == s[i]);
        lemma_map_of_index(s.drop_last(), i);
    }
}

/// Dropping the last entry of a listing with a fresh last key removes
/// exactly that key from the contents.
proof fn lemma_map_of_drop_last(s: Seq<(Value, Value)>)
    requires
        s.len() > 0,
        !has_key(s.drop_last(), s.last().0),
    ensures
        map_of(s.drop_last()) == map_of(s).remove(s.last().0),
{
    lemma_map_of_dom(s.drop_last());
    assert(map_of(s.drop_last()) =~= map_of(s).remove(s.last().0));
}

/// Canonicity: two sorted listings with equal contents are the same listing.
/// This is what lets structural equality of stored aggregates stand in for
/// content equality everywhere.
pub proof fn lemma_canonical_listing(a: Seq<(Value, Value)>, b: Seq<(Value, Value)>)
    requires
        sorted_by_key(a),
        sorted_by_key(b),
        map_of(a) == map_of(b),
    ensures
        a == b,
    decreases a.len(),
{
    lemma_map_of_dom(a);
    lemma_map_of_dom(b);
    if a.len() == 0 {
        if b.len() > 0 {
            assert(has_key(b, b[0].0));
            assert(map_of(a).dom().contains(b[0].0));
            assert(false);
        }
        assert(a =~= b);
    } else {
        assert(has_key(a, a.last().0)) by {
            assert(a[a.len() - 1].0 == a.last().0);
        }
        if b.len() == 0 {
            assert(map_of(b).dom().contains(a.last().0));
            assert(false);
        }
        let ka = a.last().0;
        let kb = b.last().0;
        // The last key of a sorted listing is its greatest; both listings
        // list the same keys, so the greatest keys agree.
        assert(has_key(b, ka));
        let ia = choose|i: int| 0 <= i < b.len() && (#[trigger] b[i]).0 == ka;
        if ia < b.len() - 1 {
            assert(value_lt(ka, kb));
        }
        assert(has_key(a, kb)) by {
            assert(b[b.len() - 1].0 == kb);
        }
        let ib = choose|i: int| 0 <= i < a.len() && (#[trigger] a[i]).0 == kb;
        if ib < a.len() - 1 {
            assert(value_lt(kb, ka));
        }
        assert(ka == kb);
        lemma_map_of_index(a, a.len() - 1);
        lemma_map_of_index(b, b.len() - 1);
        assert(a.last().1 == b.last().1);
        assert(!has_key(a.drop_last(), ka)) by {
            if has_key(a.drop_last(), ka) {
                let i = choose|i: int| 0 <= i < a.drop_last().len() && (#[trigger] a.drop_last()[i]).0 == ka;
                assert(value_lt(a[i].0, ka));
            }
        }
        assert(!has_key(b.drop_last(), kb)) by {
            if has_key(b.drop_last(), kb) {
                let i = choose|i: int| 0 <= i < b.drop_last().len() && (#[trigger] b.drop_last()[i]).0 == kb;
                assert(value_lt(b[i].0, kb));
            }
        }
        lemma_map_of_drop_last(a);
        lemma_map_of_drop_last(b);
        lemma_canonical_listing(a.drop_last(), b.drop_last());
        assert(a =~= b) by {
            assert(a.len() == b.len());
            assert(forall|i: int| 0 <= i < a.len() - 1 ==> a[i] == a.drop_last()[i] && b[i] == b.drop_last()[i]);
        }
    }
}

/// The bridge from a listing built around an insertion to the contents it
/// must have: if `t` lists exactly the keys of `s` plus `k`, carries `v` at
/// `k`, and copies every other entry from `s`, then `t`'s contents are `s`'s
/// contents with `k` bound to `v`.
proof fn lemma_map_of_insert(s: Seq<(Value, Value)>, t: Seq<(Value, Value)>, k: Value, v: Value)
    requires
        sorted_by_key(s),
        sorted_by_key(t),
        forall|x: Value| has_key(t, x) <==> has_key(s, x) || x == k,
        forall|j: int| 0 <= j < t.len() && (#[trigger] t[j]).0 == k ==> t[j].1 == v,
        forall|j: int| 0 <= j < t.len() && (#[trigger] t[j]).0 != k ==> has_entry(s, t[j]),
    ensures
        map_of(t) == map_of(s).insert(k, v),
{
    lemma_map_of_dom(s);
    lemma_map_of_dom(t);
    assert(has_key(t, k));
    assert forall|x: Value| map_of(t).dom().contains(x) implies map_of(t)[x] == map_of(s).insert(
        k,
        v,
    )[x] by {
        assert(has_key(t, x));
        let i = choose|i: int| 0 <= i < t.len() && (#[trigger] t[i]).0 == x;
        lemma_map_of_index(t, i);
        if x != k {
            assert(has_entry(s, t[i]));
            let j = choose|j: int| 0 <= j < s.len() && #[trigger] s[j] == t[i];
            lemma_map_of_index(s, j);
            assert(has_key(s, x)) by {
                assert((#[trigger] s[j]).0 == x);
            }
        }
    }
    assert(map_of(t).dom() =~= map_of(s).insert(k, v).dom()) by {
        assert forall|x: Value|
            map_of(t).dom().contains(x) <==> map_of(s).insert(k, v).dom().contains(x) by {
            assert(map_of(t).dom().contains(x) <==> has_key(t, x));
            assert(map_of(s).dom().contains(x) <==> has_key(s, x));
        }
    }
    assert(map_of(t) =~= map_of(s).insert(k, v));
}

/// Whether `e` is one of the entries listed in `s`.
pub open spec fn has_entry(s: Seq<(Value, Value)>, e: (Value, Value)) -> bool {
    exists|i: int| 0 <= i < s.len() && #[trigger] s[i] == e
}

/// A sorted listing's contents are its tail's contents with the head bound
/// last — the order in which a reconstructed expression re-inserts them.
/// With [`lemma_canonical_listing`], re-evaluating the reconstruction of a
/// stored map rebuilds exactly the stored listing, and so re-interns to the
/// same handle.
pub proof fn lemma_map_of_first(s: Seq<(Value, Value)>)
    requires
        sorted_by_key(s),
        s.len() > 0,
    ensures
        map_of(s) == map_of(s.drop_first()).insert(s.first().0, s.first().1),
{
    let p = s.drop_first();
    let k = s.first().0;
    let v = s.first().1;
    assert forall|j1: int, j2: int| 0 <= j1 < j2 < p.len() implies value_lt(
        p[j1].0,
        p[j2].0,
    ) by {
        assert(p[j1] == s[j1 + 1] && p[j2] == s[j2 + 1]);
    }
    assert forall|x: Value| has_key(s, x) <==> has_key(p, x) || x == k by {
        if has_key(s, x) {
            let i = choose|i: int| 0 <= i < s.len() && (#[trigger] s[i]).0 == x;
            if i > 0 {
                assert(p[i - 1].0 == x);
            }
        }
        if has_key(p, x) {
            let i = choose|i: int| 0 <= i < p.len() && (#[trigger] p[i]).0 == x;
            assert(s[i + 1].0 == x);
        }
        if x == k {
            assert(s[0].0 == x);
        }
    }
    assert forall|j: int| 0 <= j < s.len() && (#[trigger] s[j]).0 == k implies s[j].1 == v by {
        if j > 0 {
            assert(value_lt(s[0].0, s[j].0));
        }
    }
    assert forall|j: int| 0 <= j < s.len() && (#[trigger] s[j]).0 != k implies has_entry(
        p,
        s[j],
    ) by {
        assert(j != 0);
        assert(p[j - 1] == s[j]);
    }
    lemma_map_of_insert(p, s, k, v);
}

/// Every entry of a sorted listing whose contents are `s`'s with `k` bound
/// to `v` is either that binding or one of `s`'s own entries.
pub proof fn lemma_entries_from_insert(
    s: Seq<(Value, Value)>,
    t: Seq<(Value, Value)>,
    k: Value,
    v: Value,
)
    requires
        sorted_by_key(s),
        sorted_by_key(t),
        map_of(t) == map_of(s).insert(k, v),
    ensures
        forall|j: int| 0 <= j < t.len() ==> #[trigger] t[j] == (k, v) || has_entry(s, t[j]),
{
    lemma_map_of_dom(s);
    lemma_map_of_dom(t);
    assert forall|j: int| 0 <= j < t.len() implies #[trigger] t[j] == (k, v) || has_entry(
        s,
        t[j],
    ) by {
        lemma_map_of_index(t, j);
        let x = t[j].0;
        if x == k {
            assert(map_of(t)[x] == v);
            assert(t[j] == (k, v));
        } else {
            assert(map_of(t).dom().contains(x));
            assert(map_of(s).dom().contains(x));
            assert(has_key(s, x));
            let i = choose|i: int| 0 <= i < s.len() && (#[trigger] s[i]).0 == x;
            lemma_map_of_index(s, i);
            assert(map_of(t)[x] == map_of(s)[x]);
            assert(s[i] == t[j]);
        }
    }
}

// ---------------------------------------------------------------------------
// The aggregate map value.
// ---------------------------------------------------------------------------

/// An ordered map from values to values: the aggregate behind the map sort.
///
/// The entries are kept sorted strictly by key, so the listing is canonical
/// for its contents, and structural equality of listings coincides with
/// equality of contents.  A `ValueMap` is built transiently by a primitive
/// and immediately interned; updates copy, they never touch a stored one.
#[derive(Debug)]
pub struct ValueMap {
    pairs: Vec<(Value, Value)>,
}

impl View for ValueMap {
    type V = Seq<(Value, Value)>;

    closed spec fn view(&self) -> Seq<(Value, Value)> {
        self.pairs@
    }
}

impl ValueMap {
    /// The sorted-keys invariant; every constructor establishes it and every
    /// operation preserves it.
    pub open spec fn wf(self) -> bool {
        sorted_by_key(self@)
    }

    /// The contents of this map, as a mathematical map.
    pub open spec fn contents(self) -> Map<Value, Value> {
        map_of(self@)
    }

    /// The empty map.
    pub fn new() -> (r: ValueMap)
        ensures
            r.wf(),
            r@ == Seq::<(Value, Value)>::empty(),
            r.contents() == Map::<Value, Value>::empty(),
    {
        ValueMap { pairs: Vec::new() }
    }

    /// How many entries the map holds.
    pub fn len(&self) -> (n: usize)
        ensures
            n == self@.len(),
    {
        self.pairs.len()
    }

    /// The entry at position `i` in key order.
    pub fn entry(&self, i: usize) -> (e: (Value, Value))
        requires
            i < self@.len(),
        ensures
            e == self@[i as int],
    {
        self.pairs[i]
    }

    /// Looks the key up in the contents; absence is a normal outcome, never
    /// a fabricated value.
    pub fn get(&self, k: Value) -> (r: Option<Value>)
        requires
            self.wf(),
        ensures
            r == if self.contents().dom().contains(k) {
                Some(self.contents()[k])
            } else {
                None::<Value>
            },
    {
        proof {
            lemma_map_of_dom(self@);
        }
        let n = self.pairs.len();
        let mut i: usize = 0;
        while i < n
            invariant
                self.wf(),
                n == self@.len(),
                i <= n,
                forall|j: int| 0 <= j < i ==> (#[trigger] self@[j]).0 != k,
            decreases n - i,
        {
            if self.pairs[i].0 == k {
                proof {
                    lemma_map_of_index(self@, i as int);
                }
                return Some(self.pairs[i].1);
            }
            i += 1;
        }
        proof {
            assert(!has_key(self@, k));
        }
        None
    }

    /// Binds `k` to `v`, overriding an existing binding for `k` and keeping
    /// every other entry; the listing stays sorted, so it stays canonical.
    pub fn insert(&mut self, k: Value, v: Value)
        requires
            old(self).wf(),
        ensures
            final(self).wf(),
            final(self).contents() == old(self).contents().insert(k, v),
            has_key(old(self)@, k) ==> final(self)@.len() == old(self)@.len(),
            !has_key(old(self)@, k) ==> final(self)@.len() == old(self)@.len() + 1,
    {
        let n = self.pairs.len();
        let mut i: usize = 0;
        while i < n && self.pairs[i].0.lt(&k)
            invariant
                self == old(self),
                n == self@.len(),
                i <= n,
                forall|j: int| 0 <= j < i ==> value_lt((#[trigger] self@[j]).0, k),
            decreases n - i,
        {
            i += 1;
        }
        if i < n && self.pairs[i].0 == k {
            let ghost s = self@;
            self.pairs[i] = (k, v);
            proof {
                let t = self@;
                assert(t == s.update(i as int, (k, v)));
                assert forall|j1: int, j2: int| 0 <= j1 < j2 < t.len() implies value_lt(
                    t[j1].0,
                    t[j2].0,
                ) by {
                    assert(t[j1].0 == s[j1].0);
                    assert(t[j2].0 == s[j2].0);
                }
                assert forall|x: Value| has_key(t, x) <==> has_key(s, x) || x == k by {
                    if has_key(t, x) {
                        let j = choose|j: int| 0 <= j < t.len() && (#[trigger] t[j]).0 == x;
                        if j != i {
                            assert(s[j].0 == x);
                        }
                    }
                    if has_key(s, x) {
                        let j = choose|j: int| 0 <= j < s.len() && (#[trigger] s[j]).0 == x;
                        if j == i {
                            assert(x == k);
                            assert(t[j].0 == x);
                        } else {
                            assert(t[j].0 == x);
                        }
                    }
                    if x == k {
                        assert(t[i as int].0 == x);
                    }
                }
                assert forall|j: int| 0 <= j < t.len() && (#[trigger] t[j]).0 == k implies t[j].1
                    == v by {
                    if j != i {
                        assert(s[j].0 == k && s[i as int].0 == k);
                        if j < i {
                            assert(value_lt(s[j].0, s[i as int].0));
                        } else {
                            assert(value_lt(s[i as int].0, s[j].0));
                        }
                    }
                }
                assert forall|j: int| 0 <= j < t.len() && (#[trigger] t[j]).0 != k implies has_entry(
                    s,
                    t[j],
                ) by {
                    assert(s[j] == t[j]);
                }
                lemma_map_of_insert(s, t, k, v);
                assert(has_key(s, k)) by {
                    assert(s[i as int].0 == k);
                }
            }
        } else {
            let ghost s = self@;
            proof {
                if i < n {
                    assert(!value_lt(s[i as int].0, k) && s[i as int].0 != k);
                    assert(value_lt(k, s[i as int].0));
                }
                assert(!has_key(s, k)) by {
                    if has_key(s, k) {
                        let j = choose|j: int| 0 <= j < s.len() && (#[trigger] s[j]).0 == k;
                        if j < i {
                            assert(value_lt(s[j].0, k));
                        } else {
                            assert(value_lt(k, s[j].0) || s[j].0 == k);
                            assert(j >= i && i < n);
                            if j > i {
                                assert(value_lt(s[i as int].0, s[j].0));
                            }
                        }
                    }
                }
            }
            self.pairs.insert(i, (k, v));
            proof {
                let t = self@;
                assert(t == s.insert(i as int, (k, v)));
                assert forall|j1: int, j2: int| 0 <= j1 < j2 < t.len() implies value_lt(
                    t[j1].0,
                    t[j2].0,
                ) by {
                    if j1 < i && j2 < i {
                        assert(t[j1] == s[j1] && t[j2] == s[j2]);
                    } else if j1 < i && j2 == i {
                        assert(t[j1] == s[j1]);
                    } else if j1 < i && j2 > i {
                        assert(t[j1] == s[j1] && t[j2] == s[j2 - 1]);
                        if j2 - 1 == i {
                            assert(j1 < i);
                        }
                    } else if j1 == i {
                        assert(t[j2] == s[j2 - 1] && j2 - 1 >= i);
                        if j2 - 1 == i {
                        } else {
                            assert(value_lt(s[i as int].0, s[j2 - 1].0));
                        }
                    } else {
                        assert(t[j1] == s[j1 - 1] && t[j2] == s[j2 - 1]);
                    }
                }
                assert forall|x: Value| has_key(t, x) <==> has_key(s, x) || x == k by {
                    if has_key(t, x) {
                        let j = choose|j: int| 0 <= j < t.len() && (#[trigger] t[j]).0 == x;
                        if j < i {
                            assert(s[j].0 == x);
                        } else if j > i {
                            assert(s[j - 1].0 == x);
                        }
                    }
                    if has_key(s, x) {
                        let j = choose|j: int| 0 <= j < s.len() && (#[trigger] s[j]).0 == x;
                        if j < i {
                            assert(t[j].0 == x);
                        } else {
                            assert(t[j + 1].0 == x);
                        }
                    }
                    if x == k {
                        assert(t[i as int].0 == x);
                    }
                }
                assert forall|j: int| 0 <= j < t.len() && (#[trigger] t[j]).0 == k implies t[j].1
                    == v by {
                    if j != i {
                        assert(has_key(s, k)) by {
                            if j < i {
                                assert(s[j].0 == k);
                            } else {
                                assert(s[j - 1].0 == k);
                            }
                        }
                    }
                }
                assert forall|j: int| 0 <= j < t.len() && (#[trigger] t[j]).0 != k implies has_entry(
                    s,
                    t[j],
                ) by {
                    if j < i {
                        assert(s[j] == t[j]);
                    } else {
                        assert(j != i);
                        assert(s[j - 1] == t[j]);
                    }
                }
                lemma_map_of_insert(s, t, k, v);
            }
        }
    }

    /// Whether two maps are the same listing; with the sorted invariant that
    /// is the same question as whether their contents are equal.
    pub fn same_entries(&self, other: &ValueMap) -> (r: bool)
        ensures
            r == (self@ == other@),
    {
        let n = self.pairs.len();
        if n != other.pairs.len() {
            proof {
                assert(self@ != other@) by {
                    assert(self@.len() != other@.len());
                }
            }
            return false;
        }
        let mut i: usize = 0;
        while i < n
            invariant
                n == self@.len(),
                n == other@.len(),
                i <= n,
                forall|j: int| 0 <= j < i ==> self@[j] == other@[j],
            decreases n - i,
        {
            if self.pairs[i].0 != other.pairs[i].0 || self.pairs[i].1 != other.pairs[i].1 {
                return false;
            }
            i += 1;
        }
        proof {
            assert(self@ =~= other@);
        }
        true
    }

    /// A fresh map with the same listing; stored aggregates are handed out
    /// as copies so the store's entries are never aliased.
    pub fn duplicate(&self) -> (r: ValueMap)
        ensures
            r@ == self@,
    {
        let n = self.pairs.len();
        let mut pairs: Vec<(Value, Value)> = Vec::new();
        let mut i: usize = 0;
        while i < n
            invariant
                n == self@.len(),
                i <= n,
                pairs@ == self@.subrange(0, i as int),
            decreases n - i,
        {
            pairs.push(self.pairs[i]);
            proof {
                assert(pairs@ =~= self@.subrange(0, i + 1));
            }
            i += 1;
        }
        proof {
            assert(pairs@ =~= self@);
        }
        ValueMap { pairs }
    }
}

// ---------------------------------------------------------------------------
// The interning store.
// ---------------------------------------------------------------------------

/// Whether the store listing `t` holds an aggregate with listing `x`.
pub open spec fn has_item(t: Seq<Seq<(Value, Value)>>, x: Seq<(Value, Value)>) -> bool {
    exists|i: int| 0 <= i < t.len() && #[trigger] t[i] == x
}

/// A deduplicating, insertion-order-indexed store of aggregate maps: the one
/// place an aggregate's structure is materialized.  It is append-only —
/// indices are never reused or invalidated and nothing is ever removed — and
/// the same content always sits at the same index.
#[derive(Debug)]
pub struct InternTable {
    items: Vec<ValueMap>,
}

impl View for InternTable {
    type V = Seq<Seq<(Value, Value)>>;

    closed spec fn view(&self) -> Seq<Seq<(Value, Value)>> {
        Seq::new(self.items@.len() as nat, |i: int| self.items@[i]@)
    }
}

impl InternTable {
    /// Every stored listing is sorted, and no two indices hold the same
    /// listing: content determines index.
    pub open spec fn wf(self) -> bool {
        &&& forall|i: int| 0 <= i < self@.len() ==> sorted_by_key(#[trigger] self@[i])
        &&& forall|i: int, j: int| 0 <= i < j < self@.len() ==> self@[i] != self@[j]
    }

    /// An empty store.
    pub fn new() -> (r: InternTable)
        ensures
            r.wf(),
            r@ == Seq::<Seq<(Value, Value)>>::empty(),
    {
        let r = InternTable { items: Vec::new() };
        proof {
            assert(r@ =~= Seq::<Seq<(Value, Value)>>::empty());
        }
        r
    }

    /// How many aggregates the store holds.
    pub fn len(&self) -> (n: usize)
        ensures
            n == self@.len(),
    {
        self.items.len()
    }

    /// Interns `m`: returns the index of the aggregate equal to `m` if one
    /// is already stored, and appends `m` at the next index otherwise.
    /// Either way the existing entries are untouched, so every index handed
    /// out before stays valid and keeps its content.
    pub fn insert_full(&mut self, m: ValueMap) -> (i: usize)
        requires
            old(self).wf(),
            m.wf(),
        ensures
            final(self).wf(),
            i < final(self)@.len(),
            final(self)@[i as int] == m@,
            final(self)@.len() >= old(self)@.len(),
            forall|j: int| 0 <= j < old(self)@.len() ==> final(self)@[j] == old(self)@[j],
            has_item(old(self)@, m@) ==> final(self)@ == old(self)@,
            !has_item(old(self)@, m@) ==> final(self)@ == old(self)@.push(m@) && i == old(
                self,
            )@.len(),
    {
        let n = self.items.len();
        let mut idx: usize = 0;
        while idx < n
            invariant
                self == old(self),
                old(self).wf(),
                n == self@.len(),
                idx <= n,
                forall|j: int| 0 <= j < idx ==> #[trigger] self@[j] != m@,
            decreases n - idx,
        {
            if self.items[idx].same_entries(&m) {
                proof {
                    assert(self@[idx as int] == m@);
                    assert(has_item(old(self)@, m@));
                }
                return idx;
            }
            proof {
                assert(self@[idx as int] != m@);
            }
            idx += 1;
        }
        proof {
            assert(!has_item(self@, m@));
        }
        let ghost s = self@;
        self.items.push(m);
        proof {
            assert(self@ =~= s.push(m@));
        }
        idx
    }

    /// The aggregate stored at index `i`.  An index out of range means the
    /// handle came from a different store, which is a usage contract
    /// violation; callers rule it out rather than recover from it.
    pub fn get_index(&self, i: usize) -> (r: &ValueMap)
        requires
            i < self@.len(),
        ensures
            r@ == self@[i as int],
    {
        &self.items[i]
    }
}

/// Content determines index: two indices of a well-formed store hold equal
/// listings exactly when they are the same index.  With
/// [`InternTable::insert_full`]'s contract this is interning idempotence —
/// storing the same aggregate twice, in any interleaving, yields the same
/// index both times — and equality fidelity: handles agree exactly when the
/// stored aggregates are structurally equal.
pub proof fn lemma_interned_index_unique(
    t: Seq<Seq<(Value, Value)>>,
    i: int,
    j: int,
)
    requires
        forall|a: int, b: int| 0 <= a < b < t.len() ==> t[a] != t[b],
        0 <= i < t.len(),
        0 <= j < t.len(),
    ensures
        t[i] == t[j] <==> i == j,
{
}

/// Last write wins: against [`ValueMap::insert`]'s contract, inserting under
/// a key twice leaves exactly the listing that inserting only the second
/// value leaves, so the interned handles coincide and the size does not grow
/// on the repeat.
pub proof fn lemma_insert_overwrite(
    s: Seq<(Value, Value)>,
    t1: Seq<(Value, Value)>,
    t2: Seq<(Value, Value)>,
    u: Seq<(Value, Value)>,
    k: Value,
    v1: Value,
    v2: Value,
)
    requires
        sorted_by_key(s),
        sorted_by_key(t1),
        sorted_by_key(t2),
        sorted_by_key(u),
        map_of(t1) == map_of(s).insert(k, v1),
        map_of(t2) == map_of(t1).insert(k, v2),
        map_of(u) == map_of(s).insert(k, v2),
    ensures
        t2 == u,
{
    assert(map_of(t2) =~= map_of(u));
    lemma_canonical_listing(t2, u);
}

} // verus!
