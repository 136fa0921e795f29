use crate::container::{
    has_entry, has_item, lemma_entries_from_insert, map_of, InternTable, ValueMap,
};
use crate::expr::{is_var, var_name, Expr, TypeError};
use crate::sort::{
    as_map_sort, entry_extends, extends, is_map_sort, lemma_entry_extends_refl,
    lemma_extends_trans, lemma_name_unique, lemma_sorts_wf_extends, lemma_valid_value_mono,
    map_sort_ok,
    prim_sort_spec, sort_name_spec, tail_entries_valid, valid_value, EGraph, Primitive, Sort,
};
use crate::symbol::{Symbol, EMPTY_NAME_ID, GET_NAME_ID, INSERT_NAME_ID};
use crate::value::Value;
use vstd::prelude::*;

verus! {

/// The ordered-map aggregate sort: a persistent map from values of the
/// declared key sort to values of the declared value sort.
///
/// `key` and `value` are registry indices of sorts declared earlier; `maps`
/// is this sort's own interning store, the only place a map aggregate's
/// structure is materialized.  A handle tagged `name` carries a store index
/// in its payload.
#[derive(Debug)]
pub struct MapSort {
    pub name: Symbol,
    pub key: usize,
    pub value: usize,
    pub maps: InternTable,
}

/// Whether the two type-argument expressions of a map declaration have the
/// accepted shape: exactly two variable references naming the key and value
/// sorts.
pub open spec fn map_decl_shape(args: Seq<Expr>) -> bool {
    args.len() == 2 && is_var(args[0]) && is_var(args[1])
}

impl MapSort {
    /// The names of the declared key and value sorts.
    pub fn kv_names(&self, egraph: &EGraph) -> (r: (Symbol, Symbol))
        requires
            self.key < egraph.sorts@.len(),
            self.value < egraph.sorts@.len(),
        ensures
            r.0 == sort_name_spec(egraph.sorts@[self.key as int]),
            r.1 == sort_name_spec(egraph.sorts@[self.value as int]),
    {
        (egraph.sorts[self.key].name(), egraph.sorts[self.value].name())
    }

    /// The sort factory: called when a schema declares a new map sort under
    /// `name` with type arguments `args`.  The arguments must be exactly two
    /// variable references, each naming an already-declared sort; a name
    /// that does not resolve is an undefined-sort error, any other argument
    /// shape a malformed declaration.  The key's name is resolved first, so
    /// when both names are unknown the key's name is the one reported.  The
    /// new sort starts with an empty store.
    pub fn make_sort(egraph: &EGraph, name: Symbol, args: &Vec<Expr>) -> (r: Result<
        MapSort,
        TypeError,
    >)
        ensures
            match r {
                Ok(m) => {
                    &&& map_decl_shape(args@)
                    &&& m.name == name
                    &&& m.key < egraph.sorts@.len()
                    &&& sort_name_spec(egraph.sorts@[m.key as int]) == var_name(args@[0])
                    &&& m.value < egraph.sorts@.len()
                    &&& sort_name_spec(egraph.sorts@[m.value as int]) == var_name(args@[1])
                    &&& m.maps@.len() == 0
                },
                Err(TypeError::MalformedDeclaration) => !map_decl_shape(args@),
                Err(TypeError::UndefinedSort(u)) => {
                    &&& map_decl_shape(args@)
                    &&& forall|i: int|
                        0 <= i < egraph.sorts@.len() ==> sort_name_spec(
                            #[trigger] egraph.sorts@[i],
                        ) != u
                    &&& (if exists|i: int|
                        0 <= i < egraph.sorts@.len() && sort_name_spec(#[trigger] egraph.sorts@[i])
                            == var_name(args@[0]) {
                        u == var_name(args@[1])
                    } else {
                        u == var_name(args@[0])
                    })
                },
            },
            r is Ok <==> map_decl_shape(args@) && (exists|i: int|
                0 <= i < egraph.sorts@.len() && sort_name_spec(#[trigger] egraph.sorts@[i])
                    == var_name(args@[0])) && (exists|i: int|
                0 <= i < egraph.sorts@.len() && sort_name_spec(#[trigger] egraph.sorts@[i])
                    == var_name(args@[1])),
    {
        if args.len() != 2 {
            return Err(TypeError::MalformedDeclaration);
        }
        let k_name = match &args[0] {
            Expr::Var(s) => *s,
            _ => {
                return Err(TypeError::MalformedDeclaration);
            },
        };
        let v_name = match &args[1] {
            Expr::Var(s) => *s,
            _ => {
                return Err(TypeError::MalformedDeclaration);
            },
        };
        let key = match egraph.lookup_sort(k_name) {
            Some(i) => i,
            None => {
                return Err(TypeError::UndefinedSort(k_name));
            },
        };
        let value = match egraph.lookup_sort(v_name) {
            Some(i) => i,
            None => {
                return Err(TypeError::UndefinedSort(v_name));
            },
        };
        Ok(MapSort { name, key, value, maps: InternTable::new() })
    }

    /// Interns the aggregate `m` and mints its handle: the tag is this
    /// sort's name, the payload the aggregate's store index.  Interning an
    /// aggregate already present returns the existing index, so equal
    /// content always yields the same handle; entries already stored are
    /// untouched.
    pub fn store(&mut self, m: ValueMap) -> (v: Value)
        requires
            old(self).maps.wf(),
            m.wf(),
        ensures
            final(self).name == old(self).name,
            final(self).key == old(self).key,
            final(self).value == old(self).value,
            final(self).maps.wf(),
            v.tag == old(self).name,
            (v.bits as int) < final(self).maps@.len(),
            final(self).maps@[v.bits as int] == m@,
            final(self).maps@.len() >= old(self).maps@.len(),
            forall|j: int|
                0 <= j < old(self).maps@.len() ==> final(self).maps@[j] == old(self).maps@[j],
            has_item(old(self).maps@, m@) ==> final(self).maps@ == old(self).maps@,
            !has_item(old(self).maps@, m@) ==> final(self).maps@ == old(self).maps@.push(m@) && (
            v.bits as int) == old(self).maps@.len(),
    {
        let i = self.maps.insert_full(m);
        proof {
            assert(i as u64 as int == i as int);
        }
        Value { tag: self.name, bits: i as u64 }
    }

    /// Reads the aggregate a handle denotes back out of the store, as a
    /// fresh copy.  A payload out of range means the handle came from a
    /// different store, a usage contract violation that callers rule out.
    pub fn load(&self, v: &Value) -> (m: ValueMap)
        requires
            self.maps.wf(),
            (v.bits as int) < self.maps@.len(),
        ensures
            m@ == self.maps@[v.bits as int],
            m.wf(),
    {
        let n = self.maps.len();
        let idx = v.bits as usize;
        proof {
            assert((v.bits as int) < (n as int));
            assert(idx as int == v.bits as int);
        }
        self.maps.get_index(idx).duplicate()
    }

    /// Installs this sort's three primitives — the empty-map constructor,
    /// insert, and get — into the engine's primitive registry.  Called
    /// exactly once, at declaration time, with the sort's registry index.
    pub fn register_primitives(egraph: &mut EGraph, sid: usize)
        ensures
            final(egraph).sorts@ == old(egraph).sorts@,
            final(egraph).prims@ == old(egraph).prims@.push(
                Primitive::Ctor { name: Symbol { id: EMPTY_NAME_ID }, map: sid },
            ).push(Primitive::Insert { name: Symbol { id: INSERT_NAME_ID }, map: sid }).push(
                Primitive::Get { name: Symbol { id: GET_NAME_ID }, map: sid },
            ),
    {
        egraph.add_primitive(Primitive::Ctor { name: Symbol::new(EMPTY_NAME_ID), map: sid });
        egraph.add_primitive(Primitive::Insert { name: Symbol::new(INSERT_NAME_ID), map: sid });
        egraph.add_primitive(Primitive::Get { name: Symbol::new(GET_NAME_ID), map: sid });
    }
}

/// The map sort registered at index `sid` of the registry.
pub open spec fn map_at(sorts: Seq<Sort>, sid: int) -> MapSort {
    as_map_sort(sorts[sid])
}

/// The aggregate listing that the handle payload `bits` denotes in the store
/// of the map sort at `sid`.
pub open spec fn stored_at(sorts: Seq<Sort>, sid: int, bits: u64) -> Seq<(Value, Value)> {
    map_at(sorts, sid).maps@[bits as int]
}

/// What each primitive's type check accepts, over registry indices: the
/// constructor takes no arguments and yields the map sort; insert takes
/// exactly (this map sort, its key sort, its value sort) and yields the map
/// sort; get takes exactly (this map sort, its key sort) and yields the
/// value sort.  Every other argument list is "not applicable".
pub open spec fn accept_spec(p: Primitive, m: MapSort, types: Seq<usize>) -> Option<usize> {
    match p {
        Primitive::Ctor { map, .. } => if types.len() == 0 {
            Some(map)
        } else {
            None
        },
        Primitive::Insert { map, .. } => if types.len() == 3 && types[0] == map && types[1]
            == m.key && types[2] == m.value {
            Some(map)
        } else {
            None
        },
        Primitive::Get { map, .. } => if types.len() == 2 && types[0] == map && types[1]
            == m.key {
            Some(m.value)
        } else {
            None
        },
    }
}

impl Primitive {
    /// The pure type-check phase: given the sorts of the candidate
    /// arguments (no values), returns the result sort exactly when this
    /// primitive accepts that argument-type signature, and "not applicable"
    /// otherwise.  Sorts are compared by name; under the registry invariant
    /// that is the same comparison as by index ([`lemma_name_unique`]).
    pub fn accept(&self, egraph: &EGraph, types: &Vec<usize>) -> (r: Option<usize>)
        requires
            egraph.wf(),
            0 <= prim_sort_spec(*self) < egraph.sorts@.len(),
            is_map_sort(egraph.sorts@[prim_sort_spec(*self)]),
            forall|i: int| 0 <= i < types@.len() ==> (#[trigger] types@[i]) < egraph.sorts@.len(),
        ensures
            r == accept_spec(*self, map_at(egraph.sorts@, prim_sort_spec(*self)), types@),
            match r {
                Some(i) => i < egraph.sorts@.len(),
                None => true,
            },
    {
        proof {
            assert(map_sort_ok(egraph.sorts@, prim_sort_spec(*self)));
        }
        match *self {
            Primitive::Ctor { map, .. } => {
                if types.len() == 0 {
                    Some(map)
                } else {
                    None
                }
            },
            Primitive::Insert { map, .. } => {
                if types.len() != 3 {
                    return None;
                }
                let (kn, vn) = match &egraph.sorts[map] {
                    Sort::MapOf(ms) => ms.kv_names(egraph),
                    _ => unreached(),
                };
                let mn = egraph.sorts[map].name();
                let t0 = egraph.sorts[types[0]].name();
                let t1 = egraph.sorts[types[1]].name();
                let t2 = egraph.sorts[types[2]].name();
                if t0.id == mn.id && t1.id == kn.id && t2.id == vn.id {
                    proof {
                        let s = egraph.sorts@;
                        let m = map_at(s, map as int);
                        lemma_name_unique(s, types@[0] as int, map as int);
                        lemma_name_unique(s, types@[1] as int, m.key as int);
                        lemma_name_unique(s, types@[2] as int, m.value as int);
                    }
                    Some(map)
                } else {
                    None
                }
            },
            Primitive::Get { map, .. } => {
                if types.len() != 2 {
                    return None;
                }
                let (kn, value) = match &egraph.sorts[map] {
                    Sort::MapOf(ms) => (ms.kv_names(egraph).0, ms.value),
                    _ => unreached(),
                };
                let mn = egraph.sorts[map].name();
                let t0 = egraph.sorts[types[0]].name();
                let t1 = egraph.sorts[types[1]].name();
                if t0.id == mn.id && t1.id == kn.id {
                    proof {
                        let s = egraph.sorts@;
                        let m = map_at(s, map as int);
                        lemma_name_unique(s, types@[0] as int, map as int);
                        lemma_name_unique(s, types@[1] as int, m.key as int);
                    }
                    Some(value)
                } else {
                    None
                }
            },
        }
    }

    /// The execution phase.  The caller has already type-checked the call
    /// with [`Primitive::accept`], so arity and sorts are assumed, not
    /// re-validated; "no result" is reserved for the genuine partial case,
    /// a lookup of an absent key.
    ///
    /// Executing a primitive touches nothing but the owning sort's store,
    /// and that only by interning (`extends`): every handle minted before
    /// keeps its content, which is what makes the update persistent.
    pub fn apply(&self, egraph: &mut EGraph, values: &Vec<Value>) -> (r: Option<Value>)
        requires
            old(egraph).wf(),
            0 <= prim_sort_spec(*self) < old(egraph).sorts@.len(),
            is_map_sort(old(egraph).sorts@[prim_sort_spec(*self)]),
            match *self {
                Primitive::Ctor { .. } => values@.len() == 0,
                Primitive::Insert { .. } => values@.len() == 3 && valid_value(
                    old(egraph).sorts@,
                    prim_sort_spec(*self),
                    values@[0],
                ) && valid_value(
                    old(egraph).sorts@,
                    map_at(old(egraph).sorts@, prim_sort_spec(*self)).key as int,
                    values@[1],
                ) && valid_value(
                    old(egraph).sorts@,
                    map_at(old(egraph).sorts@, prim_sort_spec(*self)).value as int,
                    values@[2],
                ),
                Primitive::Get { .. } => values@.len() == 2 && valid_value(
                    old(egraph).sorts@,
                    prim_sort_spec(*self),
                    values@[0],
                ),
            },
        ensures
            final(egraph).wf(),
            final(egraph).prims@ == old(egraph).prims@,
            extends(old(egraph).sorts@, final(egraph).sorts@),
            forall|i: int|
                0 <= i < old(egraph).sorts@.len() && i != prim_sort_spec(*self)
                    ==> #[trigger] final(egraph).sorts@[i] == old(egraph).sorts@[i],
            match *self {
                Primitive::Ctor { .. } => match r {
                    Some(v) => v.tag == map_at(old(egraph).sorts@, prim_sort_spec(*self)).name
                        && valid_value(final(egraph).sorts@, prim_sort_spec(*self), v)
                        && stored_at(final(egraph).sorts@, prim_sort_spec(*self), v.bits)
                        == Seq::<(Value, Value)>::empty(),
                    None => false,
                },
                Primitive::Insert { .. } => match r {
                    Some(v) => v.tag == map_at(old(egraph).sorts@, prim_sort_spec(*self)).name
                        && valid_value(final(egraph).sorts@, prim_sort_spec(*self), v) && map_of(
                        stored_at(final(egraph).sorts@, prim_sort_spec(*self), v.bits),
                    ) == map_of(
                        stored_at(old(egraph).sorts@, prim_sort_spec(*self), values@[0].bits),
                    ).insert(values@[1], values@[2]),
                    None => false,
                },
                Primitive::Get { .. } => *final(egraph) == *old(egraph) && r == (if map_of(
                    stored_at(old(egraph).sorts@, prim_sort_spec(*self), values@[0].bits),
                ).dom().contains(values@[1]) {
                    Some(
                        map_of(
                            stored_at(old(egraph).sorts@, prim_sort_spec(*self), values@[0].bits),
                        )[values@[1]],
                    )
                } else {
                    None
                }),
            },
    {
        let ghost a = egraph.sorts@;
        proof {
            assert(map_sort_ok(a, prim_sort_spec(*self)));
        }
        match *self {
            Primitive::Ctor { map, .. } => {
                let v = match &mut egraph.sorts[map] {
                    Sort::MapOf(ms) => ms.store(ValueMap::new()),
                    _ => unreached(),
                };
                proof {
                    lemma_apply_store_wf(
                        a,
                        egraph.sorts@,
                        map as int,
                        Seq::<(Value, Value)>::empty(),
                    );
                }
                Some(v)
            },
            Primitive::Insert { map, .. } => {
                let m0 = match &egraph.sorts[map] {
                    Sort::MapOf(ms) => ms.load(&values[0]),
                    _ => unreached(),
                };
                let mut m = m0;
                m.insert(values[1], values[2]);
                let ghost k = values@[1];
                let ghost w = values@[2];
                proof {
                    lemma_entries_from_insert(m0@, m@, k, w);
                    assert forall|j: int| 0 <= j < m@.len() implies valid_value(
                        a,
                        map_at(a, map as int).key as int,
                        (#[trigger] m@[j]).0,
                    ) && valid_value(a, map_at(a, map as int).value as int, m@[j].1) by {
                        if m@[j] == (k, w) {
                        } else {
                            assert(has_entry(m0@, m@[j]));
                            let i0 = choose|i0: int|
                                0 <= i0 < m0@.len() && #[trigger] m0@[i0] == m@[j];
                            assert(m0@[i0] == stored_at(a, map as int, values@[0].bits)[i0]);
                        }
                    }
                }
                let v = match &mut egraph.sorts[map] {
                    Sort::MapOf(ms) => ms.store(m),
                    _ => unreached(),
                };
                proof {
                    lemma_apply_store_wf(a, egraph.sorts@, map as int, m@);
                }
                Some(v)
            },
            Primitive::Get { map, .. } => {
                let m = match &egraph.sorts[map] {
                    Sort::MapOf(ms) => ms.load(&values[0]),
                    _ => unreached(),
                };
                proof {
                    crate::sort::lemma_extends_refl(a);
                }
                m.get(values[1])
            },
        }
    }
}

/// After one interning into the store of the map sort at `sid` — of a
/// listing whose entries are all well-formed handles of the declared key
/// and value sorts — the registry invariant still holds and the registry is
/// an extension of what it was.
proof fn lemma_apply_store_wf(a: Seq<Sort>, b: Seq<Sort>, sid: int, new_listing: Seq<(Value, Value)>)
    requires
        crate::sort::sorts_wf(a),
        0 <= sid < a.len(),
        is_map_sort(a[sid]),
        is_map_sort(b[sid]),
        b.len() == a.len(),
        forall|i: int| 0 <= i < a.len() && i != sid ==> #[trigger] b[i] == a[i],
        map_at(b, sid).name == map_at(a, sid).name,
        map_at(b, sid).key == map_at(a, sid).key,
        map_at(b, sid).value == map_at(a, sid).value,
        map_at(b, sid).maps.wf(),
        map_at(b, sid).maps@.len() >= map_at(a, sid).maps@.len(),
        forall|j: int|
            0 <= j < map_at(a, sid).maps@.len() ==> #[trigger] map_at(b, sid).maps@[j] == map_at(
                a,
                sid,
            ).maps@[j],
        map_at(b, sid).maps@.len() <= map_at(a, sid).maps@.len() + 1,
        map_at(b, sid).maps@.len() > map_at(a, sid).maps@.len() ==> map_at(b, sid).maps@[map_at(
            a,
            sid,
        ).maps@.len() as int] == new_listing,
        forall|j: int|
            0 <= j < new_listing.len() ==> valid_value(
                a,
                map_at(a, sid).key as int,
                (#[trigger] new_listing[j]).0,
            ) && valid_value(a, map_at(a, sid).value as int, new_listing[j].1),
    ensures
        crate::sort::sorts_wf(b),
        extends(a, b),
{
    assert forall|i: int| 0 <= i < a.len() implies entry_extends(#[trigger] a[i], #[trigger] b[i]) by {
        if i != sid {
            lemma_entry_extends_refl(a[i]);
        }
    }
    assert(extends(a, b));
    assert forall|i: int| 0 <= i < b.len() && is_map_sort(#[trigger] b[i]) implies as_map_sort(
        b[i],
    ).maps.wf() by {
        if i != sid {
            assert(map_sort_ok(a, i));
        }
    }
    assert(tail_entries_valid(a, b)) by {
        assert forall|i: int| 0 <= i < b.len() && is_map_sort(#[trigger] b[i]) implies {
            let m1 = as_map_sort(a[i]);
            let m2 = as_map_sort(b[i]);
            forall|x: int, j: int|
                m1.maps@.len() <= x < m2.maps@.len() && 0 <= j < m2.maps@[x].len() ==> valid_value(
                    b,
                    m2.key as int,
                    (#[trigger] m2.maps@[x][j]).0,
                ) && valid_value(b, m2.value as int, m2.maps@[x][j].1)
        } by {
            let m1 = as_map_sort(a[i]);
            let m2 = as_map_sort(b[i]);
            assert forall|x: int, j: int|
                m1.maps@.len() <= x < m2.maps@.len() && 0 <= j < m2.maps@[x].len() implies
                valid_value(b, m2.key as int, (#[trigger] m2.maps@[x][j]).0) && valid_value(
                b,
                m2.value as int,
                m2.maps@[x][j].1,
            ) by {
                assert(i == sid);
                assert(x == m1.maps@.len());
                assert(m2.maps@[x] == new_listing);
                assert(map_sort_ok(a, sid));
                assert(m2.key == map_at(a, sid).key && m2.value == map_at(a, sid).value);
                assert(0 <= (m2.key as int) < a.len() && 0 <= (m2.value as int) < a.len());
                lemma_valid_value_mono(a, b, m2.key as int, new_listing[j].0);
                lemma_valid_value_mono(a, b, m2.value as int, new_listing[j].1);
            }
        }
    }
    lemma_sorts_wf_extends(a, b);
}

/// Whether `e` is the canonical reconstruction of the value `v` at the sort
/// indexed `sid`: for the integer sort, a literal carrying the payload's bit
/// pattern; for a map sort, the constructor chain for the stored listing.
pub open spec fn is_value_expr(sorts: Seq<Sort>, sid: int, e: Expr, v: Value) -> bool
    decreases sid, 0nat, 0nat,
{
    if sid < 0 {
        false
    } else {
        match sorts[sid] {
            Sort::I64 { name } => v.tag == name && e == Expr::Lit(v.bits as i64),
            Sort::MapOf(m) => {
                &&& v.tag == m.name
                &&& (v.bits as int) < m.maps@.len()
                &&& (m.key as int) < sid
                &&& (m.value as int) < sid
                &&& is_map_expr(sorts, m.key as int, m.value as int, e, m.maps@[v.bits as int])
            },
        }
    }
}

/// Whether `e` is the constructor chain that re-evaluates to a map with the
/// listing `pairs` (key sort at `kid`, value sort at `vid`): the empty-map
/// call for the empty listing, and otherwise an insert call whose first
/// argument covers the tail of the listing — the outermost insert carries
/// the least key, as the reverse-order fold of `make_expr` emits it.
pub open spec fn is_map_expr(
    sorts: Seq<Sort>,
    kid: int,
    vid: int,
    e: Expr,
    pairs: Seq<(Value, Value)>,
) -> bool
    decreases (if kid > vid { kid } else { vid }), pairs.len(), 1nat,
{
    if kid < 0 || vid < 0 {
        false
    } else if pairs.len() == 0 {
        match e {
            Expr::Call(f, args) => f == (Symbol { id: EMPTY_NAME_ID }) && args@.len() == 0,
            _ => false,
        }
    } else {
        match e {
            Expr::Call(f, args) => {
                &&& f == (Symbol { id: INSERT_NAME_ID })
                &&& args@.len() == 3
                &&& is_map_expr(sorts, kid, vid, args@[0], pairs.drop_first())
                &&& is_value_expr(sorts, kid, args@[1], pairs.first().0)
                &&& is_value_expr(sorts, vid, args@[2], pairs.first().1)
            },
            _ => false,
        }
    }
}

/// Insert immutability, at the registry level: executing a primitive only
/// extends stores, so a handle minted earlier keeps denoting exactly the
/// aggregate it denoted — an insert yields a new handle and leaves the old
/// map's contents untouched.
pub proof fn lemma_handle_immutable(a: Seq<Sort>, b: Seq<Sort>, sid: int, v: Value)
    requires
        extends(a, b),
        0 <= sid < a.len(),
        is_map_sort(a[sid]),
        valid_value(a, sid, v),
    ensures
        valid_value(b, sid, v),
        stored_at(b, sid, v.bits) == stored_at(a, sid, v.bits),
{
    assert(entry_extends(a[sid], b[sid]));
}

/// The contents obtained by re-evaluating a reconstructed expression: the
/// innermost call makes the empty map and each surrounding insert call adds
/// one listed pair, the head pair last ([`is_map_expr`]).
pub open spec fn rebuilt_contents(pairs: Seq<(Value, Value)>) -> Map<Value, Value>
    decreases pairs.len(),
{
    if pairs.len() == 0 {
        Map::empty()
    } else {
        rebuilt_contents(pairs.drop_first()).insert(pairs.first().0, pairs.first().1)
    }
}

/// Round trip via expression reconstruction: re-evaluating the constructor
/// chain emitted for a stored listing rebuilds exactly that listing's
/// contents; with [`crate::container::lemma_canonical_listing`] the rebuilt
/// aggregate is the same listing, so re-interning it yields an equal handle.
pub proof fn lemma_reconstruction_round_trip(pairs: Seq<(Value, Value)>)
    requires
        crate::container::sorted_by_key(pairs),
    ensures
        rebuilt_contents(pairs) == map_of(pairs),
    decreases pairs.len(),
{
    if pairs.len() > 0 {
        let p = pairs.drop_first();
        assert forall|j1: int, j2: int| 0 <= j1 < j2 < p.len() implies crate::value::value_lt(
            p[j1].0,
            p[j2].0,
        ) by {
            assert(p[j1] == pairs[j1 + 1] && p[j2] == pairs[j2 + 1]);
        }
        lemma_reconstruction_round_trip(p);
        crate::container::lemma_map_of_first(pairs);
    }
}

/// A reconstruction stays one when the registry's stores grow: it speaks
/// only of sort names, declared parts, and already-stored listings, all of
/// which an extension preserves.
proof fn lemma_value_expr_mono(a: Seq<Sort>, b: Seq<Sort>, sid: int, e: Expr, v: Value)
    requires
        extends(a, b),
        0 <= sid < a.len(),
        is_value_expr(a, sid, e, v),
    ensures
        is_value_expr(b, sid, e, v),
    decreases sid, 0nat, 0nat,
{
    assert(entry_extends(a[sid], b[sid]));
    match a[sid] {
        Sort::I64 { .. } => {},
        Sort::MapOf(m1) => {
            let m2 = as_map_sort(b[sid]);
            assert(m2.maps@[v.bits as int] == m1.maps@[v.bits as int]);
            lemma_map_expr_mono(
                a,
                b,
                m1.key as int,
                m1.value as int,
                e,
                m1.maps@[v.bits as int],
            );
        },
    }
}

proof fn lemma_map_expr_mono(
    a: Seq<Sort>,
    b: Seq<Sort>,
    kid: int,
    vid: int,
    e: Expr,
    pairs: Seq<(Value, Value)>,
)
    requires
        extends(a, b),
        0 <= kid < a.len(),
        0 <= vid < a.len(),
        is_map_expr(a, kid, vid, e, pairs),
    ensures
        is_map_expr(b, kid, vid, e, pairs),
    decreases (if kid > vid { kid } else { vid }), pairs.len(), 1nat,
{
    if pairs.len() > 0 {
        match e {
            Expr::Call(_f, args) => {
                lemma_map_expr_mono(a, b, kid, vid, args@[0], pairs.drop_first());
                lemma_value_expr_mono(a, b, kid, args@[1], pairs.first().0);
                lemma_value_expr_mono(a, b, vid, args@[2], pairs.first().1);
            },
            _ => {},
        }
    }
}

/// The tail of a sorted listing is sorted.
proof fn lemma_sorted_drop_first(s: Seq<(Value, Value)>)
    requires
        crate::container::sorted_by_key(s),
        s.len() > 0,
    ensures
        crate::container::sorted_by_key(s.drop_first()),
{
    let p = s.drop_first();
    assert forall|j1: int, j2: int| 0 <= j1 < j2 < p.len() implies crate::value::value_lt(
        p[j1].0,
        p[j2].0,
    ) by {
        assert(p[j1] == s[j1 + 1] && p[j2] == s[j2 + 1]);
    }
}

impl EGraph {
    /// Reconstructs a source-level expression that, re-evaluated as
    /// empty/insert calls, reproduces a value equal to `v`; used for
    /// printing and round-tripping query results.  For a map the stored
    /// listing is folded in reverse key order into nested insert calls
    /// around the empty-map constructor, so evaluating the inserts puts the
    /// pairs back in their original order.
    pub fn make_expr(&self, sid: usize, v: Value) -> (e: Expr)
        requires
            self.wf(),
            (sid as int) < self.sorts@.len(),
            valid_value(self.sorts@, sid as int, v),
        ensures
            is_value_expr(self.sorts@, sid as int, e, v),
        decreases sid,
    {
        proof {
            assert(map_sort_ok(self.sorts@, sid as int));
        }
        match &self.sorts[sid] {
            Sort::I64 { .. } => Expr::Lit(v.bits as i64),
            Sort::MapOf(ms) => {
                let m = ms.load(&v);
                let n = m.len();
                let mut e = Expr::Call(Symbol::new(EMPTY_NAME_ID), Vec::new());
                let mut i: usize = n;
                while i > 0
                    invariant
                        self.wf(),
                        (sid as int) < self.sorts@.len(),
                        self.sorts@[sid as int] == Sort::MapOf(*ms),
                        (ms.key as int) < sid as int,
                        (ms.value as int) < sid as int,
                        (v.bits as int) < ms.maps@.len(),
                        m@ == ms.maps@[v.bits as int],
                        m.wf(),
                        n == m@.len(),
                        i <= n,
                        is_map_expr(
                            self.sorts@,
                            ms.key as int,
                            ms.value as int,
                            e,
                            m@.skip(i as int),
                        ),
                    decreases i,
                {
                    i -= 1;
                    let (k, w) = m.entry(i);
                    proof {
                        assert(map_sort_ok(self.sorts@, sid as int));
                        assert(ms.maps@[v.bits as int][i as int] == m@[i as int]);
                        assert(valid_value(self.sorts@, ms.key as int, k));
                        assert(valid_value(self.sorts@, ms.value as int, w));
                    }
                    let ke = self.make_expr(ms.key, k);
                    let we = self.make_expr(ms.value, w);
                    let mut args: Vec<Expr> = Vec::new();
                    args.push(e);
                    args.push(ke);
                    args.push(we);
                    let e2 = Expr::Call(Symbol::new(INSERT_NAME_ID), args);
                    proof {
                        let rest = m@.skip(i as int);
                        assert(rest.first() == m@[i as int]);
                        assert(rest.drop_first() =~= m@.skip(i as int + 1));
                    }
                    e = e2;
                }
                proof {
                    assert(m@.skip(0) =~= m@);
                }
                e
            },
        }
    }

    /// Re-evaluates a reconstructed expression of the sort at `sid`.
    /// Evaluation may intern map aggregates that were not yet stored (the
    /// partial maps an insert chain builds up), but only ever extends the
    /// stores; for the reconstruction of any value `v`, interning is
    /// idempotent, so the evaluation ends on exactly the handle `v` again.
    pub fn eval_expr(&mut self, sid: usize, e: &Expr) -> (r: Option<Value>)
        requires
            old(self).wf(),
            (sid as int) < old(self).sorts@.len(),
        ensures
            final(self).wf(),
            extends(old(self).sorts@, final(self).sorts@),
            final(self).prims@ == old(self).prims@,
            match r {
                Some(v) => valid_value(final(self).sorts@, sid as int, v),
                None => true,
            },
            forall|v: Value|
                is_value_expr(old(self).sorts@, sid as int, *e, v) ==> r == Some(v),
        decreases e, 1nat,
    {
        let ghost a = self.sorts@;
        proof {
            assert(map_sort_ok(a, sid as int));
        }
        let is_map = match &self.sorts[sid] {
            Sort::I64 { .. } => false,
            Sort::MapOf(_) => true,
        };
        if !is_map {
            let name = self.sorts[sid].name();
            proof {
                crate::sort::lemma_extends_refl(a);
            }
            match e {
                Expr::Lit(i) => {
                    let val = Value { tag: name, bits: *i as u64 };
                    proof {
                        assert forall|v: Value| is_value_expr(a, sid as int, *e, v) implies Some(
                            val,
                        ) == Some(v) by {
                            let b = v.bits;
                            assert((b as i64) as u64 == b) by (bit_vector);
                        }
                    }
                    Some(val)
                },
                _ => None,
            }
        } else {
            let r = self.eval_map_expr(sid, e);
            proof {
                let b = self.sorts@;
                let m1 = as_map_sort(a[sid as int]);
                assert(entry_extends(a[sid as int], b[sid as int]));
                assert forall|v: Value| is_value_expr(a, sid as int, *e, v) implies r == Some(
                    v,
                ) by {
                    let pairs = stored_at(a, sid as int, v.bits);
                    assert(crate::container::sorted_by_key(pairs)) by {
                        assert(map_sort_ok(a, sid as int));
                    }
                    assert(is_map_expr(a, m1.key as int, m1.value as int, *e, pairs));
                    match r {
                        Some(w) => {
                            assert(stored_at(b, sid as int, w.bits) == pairs);
                            assert(stored_at(b, sid as int, v.bits) == pairs);
                            assert(map_sort_ok(b, sid as int));
                            crate::container::lemma_interned_index_unique(
                                as_map_sort(b[sid as int]).maps@,
                                w.bits as int,
                                v.bits as int,
                            );
                            assert(w.tag == m1.name && v.tag == m1.name);
                            assert(w.bits as int == v.bits as int);
                            assert(w == v);
                        },
                        None => {
                            assert(false);
                        },
                    }
                }
            }
            r
        }
    }

    /// The map-sort half of [`EGraph::eval_expr`]: evaluates the
    /// empty/insert constructor chain by running the store/load protocol,
    /// exactly as the registered primitives would.
    fn eval_map_expr(&mut self, sid: usize, e: &Expr) -> (r: Option<Value>)
        requires
            old(self).wf(),
            (sid as int) < old(self).sorts@.len(),
            is_map_sort(old(self).sorts@[sid as int]),
        ensures
            final(self).wf(),
            extends(old(self).sorts@, final(self).sorts@),
            final(self).prims@ == old(self).prims@,
            match r {
                Some(w) => w.tag == map_at(old(self).sorts@, sid as int).name && valid_value(
                    final(self).sorts@,
                    sid as int,
                    w,
                ),
                None => true,
            },
            forall|pairs: Seq<(Value, Value)>|
                crate::container::sorted_by_key(pairs) && #[trigger] is_map_expr(
                    old(self).sorts@,
                    map_at(old(self).sorts@, sid as int).key as int,
                    map_at(old(self).sorts@, sid as int).value as int,
                    *e,
                    pairs,
                ) ==> (match r {
                    Some(w) => stored_at(final(self).sorts@, sid as int, w.bits) == pairs,
                    None => false,
                }),
        decreases e, 0nat,
    {
        let ghost a = self.sorts@;
        proof {
            assert(map_sort_ok(a, sid as int));
        }
        let (kid, vid) = match &self.sorts[sid] {
            Sort::MapOf(ms) => (ms.key, ms.value),
            _ => unreached(),
        };
        match e {
            Expr::Call(f, args) => {
                if f.id == EMPTY_NAME_ID && args.len() == 0 {
                    let w = match &mut self.sorts[sid] {
                        Sort::MapOf(ms) => ms.store(ValueMap::new()),
                        _ => unreached(),
                    };
                    proof {
                        let b = self.sorts@;
                        lemma_apply_store_wf(a, b, sid as int, Seq::<(Value, Value)>::empty());
                        assert forall|pairs: Seq<(Value, Value)>|
                            crate::container::sorted_by_key(pairs) && #[trigger] is_map_expr(
                                a,
                                map_at(a, sid as int).key as int,
                                map_at(a, sid as int).value as int,
                                *e,
                                pairs,
                            ) implies stored_at(b, sid as int, w.bits) == pairs by {
                            assert(pairs.len() == 0);
                            assert(pairs =~= Seq::<(Value, Value)>::empty());
                        }
                    }
                    Some(w)
                } else if f.id == INSERT_NAME_ID && args.len() == 3 {
                    let r0 = self.eval_map_expr(sid, &args[0]);
                    let ghost b1 = self.sorts@;
                    let m0v = match r0 {
                        Some(x) => x,
                        None => {
                            proof {
                                assert forall|pairs: Seq<(Value, Value)>|
                                    crate::container::sorted_by_key(pairs)
                                        && #[trigger] is_map_expr(
                                        a,
                                        map_at(a, sid as int).key as int,
                                        map_at(a, sid as int).value as int,
                                        *e,
                                        pairs,
                                    ) implies false by {
                                    assert(pairs.len() > 0);
                                    lemma_sorted_drop_first(pairs);
                                    assert(is_map_expr(
                                        a,
                                        kid as int,
                                        vid as int,
                                        args@[0],
                                        pairs.drop_first(),
                                    ));
                                }
                            }
                            return None;
                        },
                    };
                    let r1 = self.eval_expr(kid, &args[1]);
                    let ghost b2 = self.sorts@;
                    let kv = match r1 {
                        Some(x) => x,
                        None => {
                            proof {
                                lemma_extends_trans(a, b1, b2);
                                assert forall|pairs: Seq<(Value, Value)>|
                                    crate::container::sorted_by_key(pairs)
                                        && #[trigger] is_map_expr(
                                        a,
                                        map_at(a, sid as int).key as int,
                                        map_at(a, sid as int).value as int,
                                        *e,
                                        pairs,
                                    ) implies false by {
                                    assert(pairs.len() > 0);
                                    assert(is_value_expr(
                                        a,
                                        kid as int,
                                        args@[1],
                                        pairs.first().0,
                                    ));
                                    lemma_value_expr_mono(
                                        a,
                                        b1,
                                        kid as int,
                                        args@[1],
                                        pairs.first().0,
                                    );
                                }
                            }
                            return None;
                        },
                    };
                    let r2 = self.eval_expr(vid, &args[2]);
                    let ghost b3 = self.sorts@;
                    let wv = match r2 {
                        Some(x) => x,
                        None => {
                            proof {
                                lemma_extends_trans(a, b1, b2);
                                lemma_extends_trans(a, b2, b3);
                                assert forall|pairs: Seq<(Value, Value)>|
                                    crate::container::sorted_by_key(pairs)
                                        && #[trigger] is_map_expr(
                                        a,
                                        map_at(a, sid as int).key as int,
                                        map_at(a, sid as int).value as int,
                                        *e,
                                        pairs,
                                    ) implies false by {
                                    assert(pairs.len() > 0);
                                    assert(is_value_expr(
                                        a,
                                        vid as int,
                                        args@[2],
                                        pairs.first().1,
                                    ));
                                    lemma_value_expr_mono(
                                        a,
                                        b2,
                                        vid as int,
                                        args@[2],
                                        pairs.first().1,
                                    );
                                }
                            }
                            return None;
                        },
                    };
                    proof {
                        lemma_extends_trans(a, b1, b2);
                        lemma_extends_trans(a, b2, b3);
                        lemma_valid_value_mono(b1, b2, sid as int, m0v);
                        lemma_valid_value_mono(b2, b3, sid as int, m0v);
                        lemma_valid_value_mono(b2, b3, kid as int, kv);
                        assert(map_sort_ok(b3, sid as int));
                        assert(entry_extends(a[sid as int], b3[sid as int]));
                    }
                    let m0 = match &self.sorts[sid] {
                        Sort::MapOf(ms) => ms.load(&m0v),
                        _ => unreached(),
                    };
                    let mut m = m0;
                    m.insert(kv, wv);
                    proof {
                        lemma_entries_from_insert(m0@, m@, kv, wv);
                        assert forall|j: int| 0 <= j < m@.len() implies valid_value(
                            b3,
                            map_at(b3, sid as int).key as int,
                            (#[trigger] m@[j]).0,
                        ) && valid_value(b3, map_at(b3, sid as int).value as int, m@[j].1) by {
                            if m@[j] == (kv, wv) {
                            } else {
                                assert(has_entry(m0@, m@[j]));
                                let i0 = choose|i0: int|
                                    0 <= i0 < m0@.len() && #[trigger] m0@[i0] == m@[j];
                                assert(m0@[i0] == stored_at(b3, sid as int, m0v.bits)[i0]);
                            }
                        }
                    }
                    let w = match &mut self.sorts[sid] {
                        Sort::MapOf(ms) => ms.store(m),
                        _ => unreached(),
                    };
                    let ghost b4 = self.sorts@;
                    proof {
                        lemma_apply_store_wf(b3, b4, sid as int, m@);
                        lemma_extends_trans(a, b3, b4);
                        assert forall|pairs: Seq<(Value, Value)>|
                            crate::container::sorted_by_key(pairs) && #[trigger] is_map_expr(
                                a,
                                map_at(a, sid as int).key as int,
                                map_at(a, sid as int).value as int,
                                *e,
                                pairs,
                            ) implies stored_at(b4, sid as int, w.bits) == pairs by {
                            assert(pairs.len() > 0);
                            lemma_sorted_drop_first(pairs);
                            let rest = pairs.drop_first();
                            assert(is_map_expr(a, kid as int, vid as int, args@[0], rest));
                            assert(stored_at(b1, sid as int, m0v.bits) == rest);
                            assert(entry_extends(b1[sid as int], b3[sid as int]));
                            assert(stored_at(b3, sid as int, m0v.bits) == rest);
                            assert(m0@ == rest);
                            assert(is_value_expr(a, kid as int, args@[1], pairs.first().0));
                            lemma_value_expr_mono(a, b1, kid as int, args@[1], pairs.first().0);
                            assert(kv == pairs.first().0);
                            assert(is_value_expr(a, vid as int, args@[2], pairs.first().1));
                            lemma_value_expr_mono(a, b2, vid as int, args@[2], pairs.first().1);
                            assert(wv == pairs.first().1);
                            crate::container::lemma_map_of_first(pairs);
                            assert(map_of(m@) == map_of(pairs));
                            crate::container::lemma_canonical_listing(m@, pairs);
                            assert(stored_at(b4, sid as int, w.bits) == m@);
                        }
                    }
                    Some(w)
                } else {
                    proof {
                        crate::sort::lemma_extends_refl(a);
                        lemma_shape_no_match(a, kid as int, vid as int, *e);
                    }
                    None
                }
            },
            _ => {
                proof {
                    crate::sort::lemma_extends_refl(a);
                    lemma_shape_no_match(a, kid as int, vid as int, *e);
                }
                None
            },
        }
    }
}

/// An expression that is neither the empty-map call nor a three-argument
/// insert call reconstructs no listing at all.
proof fn lemma_shape_no_match(a: Seq<Sort>, kid: int, vid: int, e: Expr)
    requires
        match e {
            Expr::Call(f, args) => !(f == (Symbol { id: EMPTY_NAME_ID }) && args@.len() == 0) && !(
            f == (Symbol { id: INSERT_NAME_ID }) && args@.len() == 3),
            _ => true,
        },
    ensures
        forall|pairs: Seq<(Value, Value)>| !(#[trigger] is_map_expr(a, kid, vid, e, pairs)),
{
}

} // verus!
