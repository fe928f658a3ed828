use std::cell::Cell;
use std::rc::Rc;

use adapton_graph::AThunkID;
use adapton_graph::Graph;
use adapton_graph::Handle;
use adapton_graph::Thunk;
use adapton_graph::ThunkFn;

type Num = adapton_graph::Keyed<f64>;

/// Wrap a real with its cache key under the baseline truncation policy.
fn num(value: f64) -> Num {
    Num { value, key: value as u64 }
}

enum Probe {
    /// Counts its runs, reads one dependency and doubles it.
    CountDouble(Rc<Cell<u64>>, AThunkID),
    /// Counts its runs and returns twice its first argument.
    CountArg(Rc<Cell<u64>>),
    /// Counts its runs and returns a constant without dependencies.
    CountConst(Rc<Cell<u64>>, f64),
    /// Reads one dependency; an absent value becomes -1.
    PassThrough(AThunkID),
    /// Reads two dependencies and adds them.
    Sum(AThunkID, AThunkID),
}

impl ThunkFn<Num> for Probe {
    fn run(&self, h: &mut Handle<Num, Probe>) -> Num {
        match *self {
            Probe::CountDouble(ref counter, dep) => {
                counter.set(counter.get() + 1);
                h.add_edge(dep);
                num(h.compute(dep, &[]).unwrap().value * 2.0)
            }
            Probe::CountArg(ref counter) => {
                counter.set(counter.get() + 1);
                num(h.args[0].value * 2.0)
            }
            Probe::CountConst(ref counter, value) => {
                counter.set(counter.get() + 1);
                num(value)
            }
            Probe::PassThrough(dep) => {
                h.add_edge(dep);
                match h.compute(dep, &[]) {
                    Some(v) => v,
                    None => num(-1.0),
                }
            }
            Probe::Sum(a, b) => {
                h.add_edge(a);
                h.add_edge(b);
                num(h.compute(a, &[]).unwrap().value + h.compute(b, &[]).unwrap().value)
            }
        }
    }
}

#[test]
fn leaf_stability() {
    let mut graph: Graph<Num, Probe> = Graph::new();
    let leaf = graph.new_aref(num(5.0));
    assert_eq!(Some(num(5.0)), graph.compute(leaf, &[]));
    assert_eq!(Some(num(5.0)), graph.compute(leaf, &[num(1.5)]));
    assert_eq!(Some(num(5.0)), graph.compute(leaf, &[num(2.0), num(3.0)]));
    assert_eq!(Some(num(5.0)), graph.compute(leaf, &[num(1.5)]));
    graph.update_aref(leaf, num(9.0));
    assert_eq!(Some(num(9.0)), graph.compute(leaf, &[]));
    assert_eq!(Some(num(9.0)), graph.compute(leaf, &[num(1.5)]));
}

#[test]
fn memoization_avoids_recomputation() {
    let mut graph: Graph<Num, Probe> = Graph::new();
    let counter = Rc::new(Cell::new(0u64));
    let leaf = graph.new_aref(num(21.0));
    let node = graph.new_athunk(Thunk::Derived(Probe::CountDouble(counter.clone(), leaf)));
    assert_eq!(Some(num(42.0)), graph.compute(node, &[]));
    assert_eq!(1, counter.get());
    assert_eq!(Some(num(42.0)), graph.compute(node, &[]));
    assert_eq!(1, counter.get());
    // A never-seen argument key computes once more, then is cached too.
    assert_eq!(Some(num(42.0)), graph.compute(node, &[num(3.0)]));
    assert_eq!(2, counter.get());
    assert_eq!(Some(num(42.0)), graph.compute(node, &[num(3.0)]));
    assert_eq!(2, counter.get());
}

#[test]
fn invalidation_follows_dependency_edges() {
    let mut graph: Graph<Num, Probe> = Graph::new();
    let counter_x = Rc::new(Cell::new(0u64));
    let counter_z = Rc::new(Cell::new(0u64));
    let y = graph.new_aref(num(4.0));
    let x = graph.new_athunk(Thunk::Derived(Probe::CountDouble(counter_x.clone(), y)));
    let z = graph.new_athunk(Thunk::Derived(Probe::CountConst(counter_z.clone(), 7.0)));
    assert_eq!(Some(num(8.0)), graph.compute(x, &[]));
    assert_eq!(Some(num(7.0)), graph.compute(z, &[]));
    assert_eq!(1, counter_x.get());
    assert_eq!(1, counter_z.get());

    graph.update_aref(y, num(10.0));

    // X depended on Y: its next evaluation recomputes.
    assert_eq!(Some(num(20.0)), graph.compute(x, &[]));
    assert_eq!(2, counter_x.get());
    // Z has no path to Y: cached value, counter untouched.
    assert_eq!(Some(num(7.0)), graph.compute(z, &[]));
    assert_eq!(1, counter_z.get());
}

#[test]
fn diamond_dirties_each_node_once() {
    let mut graph: Graph<Num, Probe> = Graph::new();
    let w = graph.new_aref(num(1.0));
    let y = graph.new_athunk(Thunk::Derived(Probe::PassThrough(w)));
    let z = graph.new_athunk(Thunk::Derived(Probe::PassThrough(w)));
    let x = graph.new_athunk(Thunk::Derived(Probe::Sum(y, z)));
    assert_eq!(Some(num(2.0)), graph.compute(x, &[]));
    assert_eq!(Some(0), graph.times_dirtied(w));
    assert_eq!(Some(0), graph.times_dirtied(y));
    assert_eq!(Some(0), graph.times_dirtied(z));
    assert_eq!(Some(0), graph.times_dirtied(x));

    graph.update_aref(w, num(3.0));

    // One wave through the diamond dirties each node exactly once, even
    // though two paths lead from W to X.
    assert_eq!(Some(1), graph.times_dirtied(w));
    assert_eq!(Some(1), graph.times_dirtied(y));
    assert_eq!(Some(1), graph.times_dirtied(z));
    assert_eq!(Some(1), graph.times_dirtied(x));

    assert_eq!(Some(num(6.0)), graph.compute(x, &[]));
    assert_eq!(Some(true), graph.clean_flag(x));
}

#[test]
fn truncated_keys_collide() {
    let mut graph: Graph<Num, Probe> = Graph::new();
    let counter = Rc::new(Cell::new(0u64));
    let node = graph.new_athunk(Thunk::Derived(Probe::CountArg(counter.clone())));
    assert_eq!(Some(num(2.8)), graph.compute(node, &[num(1.4)]));
    assert_eq!(1, counter.get());
    // 1.9 truncates to the same integral key as 1.4, so the memo entry is
    // shared: the second call is a cache hit and returns the 1.4 result.
    assert_eq!(Some(num(2.8)), graph.compute(node, &[num(1.9)]));
    assert_eq!(1, counter.get());
    // A genuinely different integral key computes afresh.
    assert_eq!(Some(num(4.2)), graph.compute(node, &[num(2.1)]));
    assert_eq!(2, counter.get());
}

#[test]
fn unknown_identity_is_absent() {
    let mut graph: Graph<Num, Probe> = Graph::new();
    let leaf = graph.new_aref(num(1.0));
    assert_eq!(Some(num(1.0)), graph.compute(leaf, &[]));
    let stranger = AThunkID(17);
    assert_eq!(None, graph.compute(stranger, &[]));
    assert_eq!(None, graph.clean_flag(stranger));
    assert_eq!(None, graph.times_dirtied(stranger));
}

#[test]
fn clean_flag_lifecycle() {
    let mut graph: Graph<Num, Probe> = Graph::new();
    let leaf = graph.new_aref(num(1.0));
    assert_eq!(Some(false), graph.clean_flag(leaf));
    graph.compute(leaf, &[]);
    assert_eq!(Some(true), graph.clean_flag(leaf));
    graph.update_aref(leaf, num(2.0));
    assert_eq!(Some(false), graph.clean_flag(leaf));
    assert_eq!(1, graph.len());
    let other = graph.new_aref(num(3.0));
    assert_eq!(2, graph.len());
    assert_eq!(Some(num(3.0)), graph.compute(other, &[]));
}

#[test]
fn dependency_cycle_yields_absent() {
    let mut graph: Graph<Num, Probe> = Graph::new();
    // Identities are handed out in creation order, so each of the two
    // nodes can name the other before it exists.
    let a = graph.new_athunk(Thunk::Derived(Probe::PassThrough(AThunkID(1))));
    let b = graph.new_athunk(Thunk::Derived(Probe::PassThrough(AThunkID(0))));
    assert_eq!(AThunkID(0), a);
    assert_eq!(AThunkID(1), b);
    // Deriving A reaches A again through B; the inner request finds A
    // mid-derivation and reports it absent instead of recursing forever.
    assert_eq!(Some(num(-1.0)), graph.compute(a, &[]));
}
