use crate::sort::map::MapSort;
use crate::symbol::Symbol;
use crate::value::Value;
use vstd::prelude::*;

pub mod map;

verus! {

/// One type of the engine's type system.  A sort owns the interpretation of
/// every [`Value`] tagged with its name: scalar sorts read the payload
/// directly, aggregate sorts read it as an index into their interning store.
///
/// Sorts are dispatched through this closed enum and registry indices, not
/// through shared trait-object handles: the registry invariant can then
/// speak about every sort's store directly, and each contract is proved
/// against the concrete kinds.  The price is that a new sort kind is added
/// by extending this enum rather than by plugging an implementation in from
/// outside.
#[derive(Debug)]
pub enum Sort {
    /// The 64-bit integer scalar sort; the payload is the integer's bit
    /// pattern.
    I64 { name: Symbol },
    /// An ordered-map aggregate sort; the payload indexes the sort's store.
    MapOf(MapSort),
}

/// The sort's unique type name: the value tag and the type-check key.
pub open spec fn sort_name_spec(s: Sort) -> Symbol {
    match s {
        Sort::I64 { name } => name,
        Sort::MapOf(m) => m.name,
    }
}

pub open spec fn is_map_sort(s: Sort) -> bool {
    match s {
        Sort::MapOf(_) => true,
        _ => false,
    }
}

pub open spec fn as_map_sort(s: Sort) -> MapSort {
    match s {
        Sort::MapOf(m) => m,
        _ => arbitrary(),
    }
}

impl Sort {
    /// The sort's unique type name.
    pub fn name(&self) -> (r: Symbol)
        ensures
            r == sort_name_spec(*self),
    {
        match self {
            Sort::I64 { name } => *name,
            Sort::MapOf(m) => m.name,
        }
    }
}

/// Whether `v` is a well-formed handle of the sort at index `sid` of the
/// registry: the tag is that sort's name, and for an aggregate sort the
/// payload indexes its store.  A payload out of range can only come from a
/// different engine instance; every contract here rules it out.
pub open spec fn valid_value(sorts: Seq<Sort>, sid: int, v: Value) -> bool {
    match sorts[sid] {
        Sort::I64 { name } => v.tag == name,
        Sort::MapOf(m) => v.tag == m.name && (v.bits as int) < m.maps@.len(),
    }
}

/// The per-entry part of the registry invariant for index `i`: an aggregate
/// sort refers only to sorts declared before it, its store is well formed,
/// and every value a stored aggregate holds is a well-formed handle of the
/// declared key or value sort.
pub open spec fn map_sort_ok(sorts: Seq<Sort>, i: int) -> bool {
    is_map_sort(sorts[i]) ==> {
        let m = as_map_sort(sorts[i]);
        &&& m.key < i
        &&& m.value < i
        &&& m.maps.wf()
        &&& forall|x: int, j: int|
            0 <= x < m.maps@.len() && 0 <= j < m.maps@[x].len() ==> valid_value(
                sorts,
                m.key as int,
                (#[trigger] m.maps@[x][j]).0,
            ) && valid_value(sorts, m.value as int, m.maps@[x][j].1)
    }
}

/// The registry invariant: sort names are unique (a name identifies a sort
/// everywhere), and every aggregate sort is internally consistent.
pub open spec fn sorts_wf(sorts: Seq<Sort>) -> bool {
    &&& forall|i: int, j: int|
        0 <= i < j < sorts.len() ==> sort_name_spec(#[trigger] sorts[i]) != sort_name_spec(
            #[trigger] sorts[j],
        )
    &&& forall|i: int| 0 <= i < sorts.len() ==> #[trigger] map_sort_ok(sorts, i)
}

/// Whether `b` is the sort `a` with its interning store possibly extended:
/// same name, same declared parts, and every already-interned aggregate
/// still at its index.  This is the only way a sort ever changes.
pub open spec fn entry_extends(a: Sort, b: Sort) -> bool {
    match (a, b) {
        (Sort::I64 { name: n1 }, Sort::I64 { name: n2 }) => n1 == n2,
        (Sort::MapOf(m1), Sort::MapOf(m2)) => {
            &&& m2.name == m1.name
            &&& m2.key == m1.key
            &&& m2.value == m1.value
            &&& m2.maps@.len() >= m1.maps@.len()
            &&& forall|j: int| 0 <= j < m1.maps@.len() ==> m2.maps@[j] == m1.maps@[j]
        },
        _ => false,
    }
}

/// Whether the registry `b` is the registry `a` with stores possibly
/// extended.  Handles minted under `a` keep their meaning under `b`: nothing
/// is removed and no index is reused.
pub open spec fn extends(a: Seq<Sort>, b: Seq<Sort>) -> bool {
    &&& b.len() == a.len()
    &&& forall|i: int| 0 <= i < a.len() ==> entry_extends(#[trigger] a[i], #[trigger] b[i])
}

pub proof fn lemma_entry_extends_refl(a: Sort)
    ensures
        entry_extends(a, a),
{
}

pub proof fn lemma_extends_refl(a: Seq<Sort>)
    ensures
        extends(a, a),
{
    assert forall|i: int| 0 <= i < a.len() implies entry_extends(#[trigger] a[i], #[trigger] a[i]) by {
        lemma_entry_extends_refl(a[i]);
    }
}

pub proof fn lemma_extends_trans(a: Seq<Sort>, b: Seq<Sort>, c: Seq<Sort>)
    requires
        extends(a, b),
        extends(b, c),
    ensures
        extends(a, c),
{
    assert forall|i: int| 0 <= i < a.len() implies entry_extends(#[trigger] a[i], #[trigger] c[i]) by {
        assert(entry_extends(a[i], b[i]));
        assert(entry_extends(b[i], c[i]));
    }
}

/// A handle stays well formed when the registry's stores grow.
pub proof fn lemma_valid_value_mono(a: Seq<Sort>, b: Seq<Sort>, sid: int, v: Value)
    requires
        extends(a, b),
        0 <= sid < a.len(),
        valid_value(a, sid, v),
    ensures
        valid_value(b, sid, v),
{
    assert(entry_extends(a[sid], b[sid]));
}

/// New aggregates appended to the stores of `b` since `a` hold only
/// well-formed handles (of `b`'s sorts) for their declared key and value
/// sorts.
pub open spec fn tail_entries_valid(a: Seq<Sort>, b: Seq<Sort>) -> bool {
    forall|i: int|
        0 <= i < b.len() && is_map_sort(#[trigger] b[i]) ==> {
            let m1 = as_map_sort(a[i]);
            let m2 = as_map_sort(b[i]);
            forall|x: int, j: int|
                m1.maps@.len() <= x < m2.maps@.len() && 0 <= j < m2.maps@[x].len() ==> valid_value(
                    b,
                    m2.key as int,
                    (#[trigger] m2.maps@[x][j]).0,
                ) && valid_value(b, m2.value as int, m2.maps@[x][j].1)
        }
}

/// The registry invariant survives a store extension whose new aggregates
/// hold well-formed handles.
pub proof fn lemma_sorts_wf_extends(a: Seq<Sort>, b: Seq<Sort>)
    requires
        sorts_wf(a),
        extends(a, b),
        forall|i: int|
            0 <= i < b.len() && is_map_sort(#[trigger] b[i]) ==> as_map_sort(b[i]).maps.wf(),
        tail_entries_valid(a, b),
    ensures
        sorts_wf(b),
{
    assert forall|i: int, j: int| 0 <= i < j < b.len() implies sort_name_spec(#[trigger] b[i])
        != sort_name_spec(#[trigger] b[j]) by {
        assert(entry_extends(a[i], b[i]));
        assert(entry_extends(a[j], b[j]));
    }
    assert forall|i: int| 0 <= i < b.len() implies #[trigger] map_sort_ok(b, i) by {
        assert(entry_extends(a[i], b[i]));
        assert(map_sort_ok(a, i));
        if is_map_sort(b[i]) {
            let m1 = as_map_sort(a[i]);
            let m2 = as_map_sort(b[i]);
            assert forall|x: int, j: int|
                0 <= x < m2.maps@.len() && 0 <= j < m2.maps@[x].len() implies valid_value(
                b,
                m2.key as int,
                (#[trigger] m2.maps@[x][j]).0,
            ) && valid_value(b, m2.value as int, m2.maps@[x][j].1) by {
                if x < m1.maps@.len() {
                    assert(m2.maps@[x] == m1.maps@[x]);
                    assert(valid_value(a, m1.key as int, m1.maps@[x][j].0));
                    assert(valid_value(a, m1.value as int, m1.maps@[x][j].1));
                    lemma_valid_value_mono(a, b, m1.key as int, m1.maps@[x][j].0);
                    lemma_valid_value_mono(a, b, m1.value as int, m1.maps@[x][j].1);
                }
            }
        }
    }
}

/// A handle's meaning does not depend on sorts declared later.
pub proof fn lemma_valid_value_push(sorts: Seq<Sort>, s: Sort, sid: int, v: Value)
    requires
        0 <= sid < sorts.len(),
        valid_value(sorts, sid, v),
    ensures
        valid_value(sorts.push(s), sid, v),
{
    assert(sorts.push(s)[sid] == sorts[sid]);
}

/// Under the registry invariant a name resolves to at most one index, so
/// comparing sort names is comparing sort identities.
pub proof fn lemma_name_unique(sorts: Seq<Sort>, i: int, j: int)
    requires
        sorts_wf(sorts),
        0 <= i < sorts.len(),
        0 <= j < sorts.len(),
        sort_name_spec(sorts[i]) == sort_name_spec(sorts[j]),
    ensures
        i == j,
{
    if i < j {
        assert(sort_name_spec(sorts[i]) != sort_name_spec(sorts[j]));
    } else if j < i {
        assert(sort_name_spec(sorts[j]) != sort_name_spec(sorts[i]));
    }
}

/// A named, type-checked operation that one map sort registered; the engine
/// dispatches on the name and asks each candidate whether it accepts the
/// argument sorts at hand.  `map` is the owning sort's registry index.
#[derive(Clone, Copy, PartialEq, Eq, Structural, Debug)]
pub enum Primitive {
    /// The empty-map constructor.
    Ctor { name: Symbol, map: usize },
    /// The immutable-update primitive.
    Insert { name: Symbol, map: usize },
    /// The lookup primitive.
    Get { name: Symbol, map: usize },
}

/// The primitive's registered name.
pub open spec fn prim_name_spec(p: Primitive) -> Symbol {
    match p {
        Primitive::Ctor { name, .. } => name,
        Primitive::Insert { name, .. } => name,
        Primitive::Get { name, .. } => name,
    }
}

/// The registry index of the map sort that registered the primitive.
pub open spec fn prim_sort_spec(p: Primitive) -> int {
    match p {
        Primitive::Ctor { map, .. } => map as int,
        Primitive::Insert { map, .. } => map as int,
        Primitive::Get { map, .. } => map as int,
    }
}

impl Primitive {
    /// The primitive's registered name.
    pub fn name(&self) -> (r: Symbol)
        ensures
            r == prim_name_spec(*self),
    {
        match self {
            Primitive::Ctor { name, .. } => *name,
            Primitive::Insert { name, .. } => *name,
            Primitive::Get { name, .. } => *name,
        }
    }
}

/// The engine-side state this layer touches: the sort registry, queried by
/// name at declaration time, and the global primitive registry.  Sorts are
/// referred to by registry index; an index plays the part of a shared handle
/// to the sort.
#[derive(Debug)]
pub struct EGraph {
    pub sorts: Vec<Sort>,
    pub prims: Vec<Primitive>,
}

impl EGraph {
    pub open spec fn wf(self) -> bool {
        sorts_wf(self.sorts@)
    }

    /// An engine with nothing declared.
    pub fn new() -> (r: EGraph)
        ensures
            r.wf(),
            r.sorts@ == Seq::<Sort>::empty(),
            r.prims@ == Seq::<Primitive>::empty(),
    {
        EGraph { sorts: Vec::new(), prims: Vec::new() }
    }

    /// Resolves a sort name to its registry index; `None` exactly when no
    /// declared sort carries the name.
    pub fn lookup_sort(&self, name: Symbol) -> (r: Option<usize>)
        ensures
            match r {
                Some(i) => i < self.sorts@.len() && sort_name_spec(self.sorts@[i as int]) == name,
                None => forall|i: int|
                    0 <= i < self.sorts@.len() ==> sort_name_spec(#[trigger] self.sorts@[i])
                        != name,
            },
    {
        let n = self.sorts.len();
        let mut i: usize = 0;
        while i < n
            invariant
                n == self.sorts@.len(),
                i <= n,
                forall|j: int|
                    0 <= j < i ==> sort_name_spec(#[trigger] self.sorts@[j]) != name,
            decreases n - i,
        {
            if self.sorts[i].name().id == name.id {
                return Some(i);
            }
            i += 1;
        }
        None
    }

    /// Installs a declared sort under its name and returns its index, or
    /// reports the name as already taken.  A fresh aggregate sort arrives
    /// with an empty store and refers only to sorts already present.
    pub fn add_sort(&mut self, s: Sort) -> (r: Option<usize>)
        requires
            old(self).wf(),
            is_map_sort(s) ==> {
                let m = as_map_sort(s);
                &&& m.key < old(self).sorts@.len()
                &&& m.value < old(self).sorts@.len()
                &&& m.maps@.len() == 0
            },
        ensures
            final(self).wf(),
            final(self).prims@ == old(self).prims@,
            match r {
                Some(i) => final(self).sorts@ == old(self).sorts@.push(s) && i == old(
                    self,
                ).sorts@.len(),
                None => *final(self) == *old(self) && !(forall|i: int|
                    0 <= i < old(self).sorts@.len() ==> sort_name_spec(
                        #[trigger] old(self).sorts@[i],
                    ) != sort_name_spec(s)),
            },
    {
        let name = s.name();
        if self.lookup_sort(name).is_some() {
            proof {
                let i = choose|i: int|
                    0 <= i < self.sorts@.len() && sort_name_spec(#[trigger] self.sorts@[i]) == name;
            }
            return None;
        }
        let ghost a = self.sorts@;
        let i = self.sorts.len();
        self.sorts.push(s);
        proof {
            let b = self.sorts@;
            assert forall|p: int, q: int| 0 <= p < q < b.len() implies sort_name_spec(
                #[trigger] b[p],
            ) != sort_name_spec(#[trigger] b[q]) by {
                if q < a.len() {
                    assert(b[p] == a[p] && b[q] == a[q]);
                } else {
                    assert(b[p] == a[p] && b[q] == s);
                }
            }
            assert forall|p: int| 0 <= p < b.len() implies #[trigger] map_sort_ok(b, p) by {
                if p < a.len() {
                    assert(map_sort_ok(a, p));
                    assert(b[p] == a[p]);
                    if is_map_sort(b[p]) {
                        let m = as_map_sort(b[p]);
                        assert forall|x: int, j: int|
                            0 <= x < m.maps@.len() && 0 <= j < m.maps@[x].len() implies valid_value(
                            b,
                            m.key as int,
                            (#[trigger] m.maps@[x][j]).0,
                        ) && valid_value(b, m.value as int, m.maps@[x][j].1) by {
                            lemma_valid_value_push(a, s, m.key as int, m.maps@[x][j].0);
                            lemma_valid_value_push(a, s, m.value as int, m.maps@[x][j].1);
                        }
                    }
                } else {
                    assert(b[p] == s);
                }
            }
        }
        Some(i)
    }

    /// Installs a primitive into the global primitive registry; called once
    /// per primitive at sort-declaration time.
    pub fn add_primitive(&mut self, p: Primitive)
        ensures
            final(self).sorts@ == old(self).sorts@,
            final(self).prims@ == old(self).prims@.push(p),
    {
        self.prims.push(p);
    }
}

} // verus!
