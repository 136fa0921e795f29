use sortcore::expr::{Expr, TypeError};
use sortcore::sort::map::MapSort;
use sortcore::sort::{EGraph, Primitive, Sort};
use sortcore::symbol::{Symbol, EMPTY_NAME_ID, I64_NAME_ID, INSERT_NAME_ID};
use sortcore::value::Value;

const MAP_NAME: u32 = 100;

fn setup() -> (EGraph, usize, usize) {
    let mut eg = EGraph::new();
    let int_sid = eg.add_sort(Sort::I64 { name: Symbol::new(I64_NAME_ID) }).unwrap();
    let args = vec![
        Expr::Var(Symbol::new(I64_NAME_ID)),
        Expr::Var(Symbol::new(I64_NAME_ID)),
    ];
    let m = MapSort::make_sort(&eg, Symbol::new(MAP_NAME), &args).unwrap();
    let map_sid = eg.add_sort(Sort::MapOf(m)).unwrap();
    MapSort::register_primitives(&mut eg, map_sid);
    (eg, int_sid, map_sid)
}

fn prims(eg: &EGraph) -> (Primitive, Primitive, Primitive) {
    (eg.prims[0], eg.prims[1], eg.prims[2])
}

fn load_listing(eg: &EGraph, sid: usize, handle: &Value) -> Vec<(Value, Value)> {
    match &eg.sorts[sid] {
        Sort::MapOf(ms) => {
            let m = ms.load(handle);
            let mut out = Vec::new();
            for i in 0..m.len() {
                out.push(m.entry(i));
            }
            out
        },
        _ => panic!("not a map sort"),
    }
}

#[test]
fn scenario_i64_map() {
    let (mut eg, _int_sid, map_sid) = setup();
    let (ctor, ins, get) = prims(&eg);
    let m0 = ctor.apply(&mut eg, &vec![]).unwrap();
    assert_eq!(load_listing(&eg, map_sid, &m0).len(), 0);
    let m1 = ins.apply(&mut eg, &vec![m0, Value::from(1i64), Value::from(10i64)]).unwrap();
    let m2 = ins.apply(&mut eg, &vec![m1, Value::from(2i64), Value::from(20i64)]).unwrap();
    assert_eq!(
        get.apply(&mut eg, &vec![m2, Value::from(1i64)]),
        Some(Value::from(10i64))
    );
    assert_eq!(get.apply(&mut eg, &vec![m2, Value::from(3i64)]), None);
    let m3 = ins.apply(&mut eg, &vec![m2, Value::from(1i64), Value::from(99i64)]).unwrap();
    assert_eq!(
        get.apply(&mut eg, &vec![m3, Value::from(1i64)]),
        Some(Value::from(99i64))
    );
    assert_eq!(load_listing(&eg, map_sid, &m3).len(), 2);
}

#[test]
fn interning_is_idempotent() {
    let (mut eg, _int_sid, _map_sid) = setup();
    let (ctor, ins, _get) = prims(&eg);
    let e1 = ctor.apply(&mut eg, &vec![]).unwrap();
    let e2 = ctor.apply(&mut eg, &vec![]).unwrap();
    assert_eq!(e1, e2);
    let a = ins.apply(&mut eg, &vec![e1, Value::from(4i64), Value::from(5i64)]).unwrap();
    let b = ins.apply(&mut eg, &vec![e2, Value::from(4i64), Value::from(5i64)]).unwrap();
    assert_eq!(a, b);
}

#[test]
fn equal_content_collapses_to_one_handle() {
    // Two syntactically different constructions of the same map agree on
    // one canonical handle.
    let (mut eg, _int_sid, _map_sid) = setup();
    let (ctor, ins, _get) = prims(&eg);
    let empty = ctor.apply(&mut eg, &vec![]).unwrap();
    let ab = {
        let a = ins.apply(&mut eg, &vec![empty, Value::from(1i64), Value::from(10i64)]).unwrap();
        ins.apply(&mut eg, &vec![a, Value::from(2i64), Value::from(20i64)]).unwrap()
    };
    let ba = {
        let b = ins.apply(&mut eg, &vec![empty, Value::from(2i64), Value::from(20i64)]).unwrap();
        ins.apply(&mut eg, &vec![b, Value::from(1i64), Value::from(10i64)]).unwrap()
    };
    assert_eq!(ab, ba);
    let other = ins.apply(&mut eg, &vec![empty, Value::from(1i64), Value::from(11i64)]).unwrap();
    assert_ne!(ab, other);
}

#[test]
fn load_returns_what_was_stored() {
    let (mut eg, _int_sid, map_sid) = setup();
    let (ctor, ins, _get) = prims(&eg);
    let empty = ctor.apply(&mut eg, &vec![]).unwrap();
    let m = ins.apply(&mut eg, &vec![empty, Value::from(7i64), Value::from(70i64)]).unwrap();
    let listing = load_listing(&eg, map_sid, &m);
    assert_eq!(listing, vec![(Value::from(7i64), Value::from(70i64))]);
}

#[test]
fn listing_is_sorted_by_key() {
    let (mut eg, _int_sid, map_sid) = setup();
    let (ctor, ins, _get) = prims(&eg);
    let mut m = ctor.apply(&mut eg, &vec![]).unwrap();
    for k in [5i64, 1, 3] {
        m = ins.apply(&mut eg, &vec![m, Value::from(k), Value::from(k * 10)]).unwrap();
    }
    let listing = load_listing(&eg, map_sid, &m);
    assert_eq!(
        listing,
        vec![
            (Value::from(1i64), Value::from(10i64)),
            (Value::from(3i64), Value::from(30i64)),
            (Value::from(5i64), Value::from(50i64)),
        ]
    );
}

#[test]
fn insert_leaves_the_old_map_unchanged() {
    let (mut eg, _int_sid, _map_sid) = setup();
    let (ctor, ins, get) = prims(&eg);
    let empty = ctor.apply(&mut eg, &vec![]).unwrap();
    let m = ins.apply(&mut eg, &vec![empty, Value::from(1i64), Value::from(10i64)]).unwrap();
    let m2 = ins.apply(&mut eg, &vec![m, Value::from(1i64), Value::from(20i64)]).unwrap();
    assert_ne!(m, m2);
    assert_eq!(
        get.apply(&mut eg, &vec![m, Value::from(1i64)]),
        Some(Value::from(10i64))
    );
    assert_eq!(
        get.apply(&mut eg, &vec![m2, Value::from(1i64)]),
        Some(Value::from(20i64))
    );
    assert_eq!(get.apply(&mut eg, &vec![empty, Value::from(1i64)]), None);
}

#[test]
fn repeated_insert_of_a_key_is_last_write_wins() {
    let (mut eg, _int_sid, map_sid) = setup();
    let (ctor, ins, _get) = prims(&eg);
    let empty = ctor.apply(&mut eg, &vec![]).unwrap();
    let twice = {
        let a = ins.apply(&mut eg, &vec![empty, Value::from(1i64), Value::from(10i64)]).unwrap();
        ins.apply(&mut eg, &vec![a, Value::from(1i64), Value::from(20i64)]).unwrap()
    };
    let once = ins.apply(&mut eg, &vec![empty, Value::from(1i64), Value::from(20i64)]).unwrap();
    assert_eq!(twice, once);
    assert_eq!(load_listing(&eg, map_sid, &twice).len(), 1);
}

#[test]
fn get_on_an_absent_key_has_no_result() {
    let (mut eg, _int_sid, _map_sid) = setup();
    let (ctor, ins, get) = prims(&eg);
    let empty = ctor.apply(&mut eg, &vec![]).unwrap();
    assert_eq!(get.apply(&mut eg, &vec![empty, Value::from(0i64)]), None);
    let m = ins.apply(&mut eg, &vec![empty, Value::from(2i64), Value::from(20i64)]).unwrap();
    assert_eq!(get.apply(&mut eg, &vec![m, Value::from(1i64)]), None);
}

#[test]
fn accept_is_exact() {
    let (mut eg, int_sid, map_sid) = setup();
    let (ctor, ins, get) = prims(&eg);
    // The constructor takes no arguments.
    assert_eq!(ctor.accept(&eg, &vec![]), Some(map_sid));
    assert_eq!(ctor.accept(&eg, &vec![int_sid]), None);
    // Insert takes exactly (map, key, value), in that order.
    assert_eq!(ins.accept(&eg, &vec![map_sid, int_sid, int_sid]), Some(map_sid));
    assert_eq!(ins.accept(&eg, &vec![map_sid, int_sid]), None);
    assert_eq!(ins.accept(&eg, &vec![int_sid, map_sid, int_sid]), None);
    assert_eq!(ins.accept(&eg, &vec![map_sid, map_sid, int_sid]), None);
    assert_eq!(ins.accept(&eg, &vec![map_sid, int_sid, map_sid]), None);
    // Get takes exactly (map, key) and yields the value sort.
    assert_eq!(get.accept(&eg, &vec![map_sid, int_sid]), Some(int_sid));
    assert_eq!(get.accept(&eg, &vec![map_sid]), None);
    assert_eq!(get.accept(&eg, &vec![int_sid, int_sid]), None);
    // A second map sort's primitives do not accept the first map sort.
    let args = vec![
        Expr::Var(Symbol::new(I64_NAME_ID)),
        Expr::Var(Symbol::new(I64_NAME_ID)),
    ];
    let m2 = MapSort::make_sort(&eg, Symbol::new(MAP_NAME + 1), &args).unwrap();
    let sid2 = eg.add_sort(Sort::MapOf(m2)).unwrap();
    MapSort::register_primitives(&mut eg, sid2);
    let ins2 = eg.prims[4];
    assert_eq!(ins2.accept(&eg, &vec![sid2, int_sid, int_sid]), Some(sid2));
    assert_eq!(ins2.accept(&eg, &vec![map_sid, int_sid, int_sid]), None);
    assert_eq!(ins.accept(&eg, &vec![sid2, int_sid, int_sid]), None);
}

#[test]
fn make_sort_reports_declaration_errors() {
    let eg = {
        let mut eg = EGraph::new();
        eg.add_sort(Sort::I64 { name: Symbol::new(I64_NAME_ID) }).unwrap();
        eg
    };
    let unknown = Symbol::new(999);
    let r = MapSort::make_sort(
        &eg,
        Symbol::new(MAP_NAME),
        &vec![Expr::Var(unknown), Expr::Var(Symbol::new(I64_NAME_ID))],
    );
    assert_eq!(r.err(), Some(TypeError::UndefinedSort(unknown)));
    let r = MapSort::make_sort(
        &eg,
        Symbol::new(MAP_NAME),
        &vec![Expr::Var(Symbol::new(I64_NAME_ID)), Expr::Var(unknown)],
    );
    assert_eq!(r.err(), Some(TypeError::UndefinedSort(unknown)));
    // With both names unknown, the key's name is the one reported.
    let other = Symbol::new(998);
    let r = MapSort::make_sort(
        &eg,
        Symbol::new(MAP_NAME),
        &vec![Expr::Var(unknown), Expr::Var(other)],
    );
    assert_eq!(r.err(), Some(TypeError::UndefinedSort(unknown)));
    let r = MapSort::make_sort(
        &eg,
        Symbol::new(MAP_NAME),
        &vec![Expr::Var(Symbol::new(I64_NAME_ID))],
    );
    assert_eq!(r.err(), Some(TypeError::MalformedDeclaration));
    let r = MapSort::make_sort(
        &eg,
        Symbol::new(MAP_NAME),
        &vec![Expr::Lit(1), Expr::Var(Symbol::new(I64_NAME_ID))],
    );
    assert_eq!(r.err(), Some(TypeError::MalformedDeclaration));
}

#[test]
fn duplicate_sort_names_are_refused() {
    let mut eg = EGraph::new();
    eg.add_sort(Sort::I64 { name: Symbol::new(I64_NAME_ID) }).unwrap();
    assert!(eg.add_sort(Sort::I64 { name: Symbol::new(I64_NAME_ID) }).is_none());
    assert!(eg.lookup_sort(Symbol::new(I64_NAME_ID)).is_some());
    assert!(eg.lookup_sort(Symbol::new(999)).is_none());
}

/// Re-evaluates a reconstructed expression of a map<i64, i64> sort exactly
/// as the engine's evaluator would: literals become integer values, empty
/// and insert calls run the registered primitives.
fn reevaluate(eg: &mut EGraph, ctor: Primitive, ins: Primitive, e: &Expr) -> Value {
    match e {
        Expr::Lit(i) => Value::from(*i),
        Expr::Call(f, args) if f.id == EMPTY_NAME_ID && args.is_empty() => {
            ctor.apply(eg, &vec![]).unwrap()
        },
        Expr::Call(f, args) if f.id == INSERT_NAME_ID && args.len() == 3 => {
            let m = reevaluate(eg, ctor, ins, &args[0]);
            let k = reevaluate(eg, ctor, ins, &args[1]);
            let v = reevaluate(eg, ctor, ins, &args[2]);
            ins.apply(eg, &vec![m, k, v]).unwrap()
        },
        _ => panic!("not a reconstruction"),
    }
}

#[test]
fn library_evaluator_returns_the_original_handle() {
    let (mut eg, int_sid, map_sid) = setup();
    let (ctor, ins, _get) = prims(&eg);
    let mut m = ctor.apply(&mut eg, &vec![]).unwrap();
    for k in [9i64, 0, -3, 4] {
        m = ins.apply(&mut eg, &vec![m, Value::from(k), Value::from(2 * k)]).unwrap();
    }
    let e = eg.make_expr(map_sid, m);
    assert_eq!(eg.eval_expr(map_sid, &e), Some(m));
    let five = Value::from(5i64);
    let le = eg.make_expr(int_sid, five);
    match &le {
        Expr::Lit(i) => assert_eq!(*i, 5),
        _ => panic!("expected a literal"),
    }
    assert_eq!(eg.eval_expr(int_sid, &le), Some(five));
    // An expression outside the reconstruction language has no result.
    assert_eq!(eg.eval_expr(map_sid, &Expr::Var(Symbol::new(1))), None);
}

#[test]
fn reconstruction_reevaluates_to_the_same_handle() {
    let (mut eg, _int_sid, map_sid) = setup();
    let (ctor, ins, _get) = prims(&eg);
    let mut m = ctor.apply(&mut eg, &vec![]).unwrap();
    for k in [2i64, -1, 5] {
        m = ins.apply(&mut eg, &vec![m, Value::from(k), Value::from(k + 100)]).unwrap();
    }
    let e = eg.make_expr(map_sid, m);
    let back = reevaluate(&mut eg, ctor, ins, &e);
    assert_eq!(back, m);
    // The empty map reconstructs to the bare constructor call.
    let empty = ctor.apply(&mut eg, &vec![]).unwrap();
    let e0 = eg.make_expr(map_sid, empty);
    match &e0 {
        Expr::Call(f, args) => {
            assert_eq!(f.id, EMPTY_NAME_ID);
            assert!(args.is_empty());
        },
        _ => panic!("expected a call"),
    }
    assert_eq!(reevaluate(&mut eg, ctor, ins, &e0), empty);
}
