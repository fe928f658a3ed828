use adapton_graph::AThunkID;
use adapton_graph::Graph;
use adapton_graph::Handle;
use adapton_graph::ThunkFn;

type Num = adapton_graph::Keyed<f64>;

/// Wrap a real with its cache key under the baseline truncation policy.
fn num(value: f64) -> Num {
    Num { value, key: value as u64 }
}

enum Comp {
    Sub(AThunkID, AThunkID),
    Add(AThunkID, AThunkID),
    SumDiv(AThunkID, AThunkID, AThunkID),
}

impl ThunkFn<Num> for Comp {
    fn run(&self, h: &mut Handle<Num, Comp>) -> Num {
        match *self {
            Comp::Sub(a, b) => {
                h.add_edge(a);
                h.add_edge(b);
                num(h.compute(a, &[]).unwrap().value - h.compute(b, &[]).unwrap().value)
            }
            Comp::Add(a, b) => {
                h.add_edge(a);
                h.add_edge(b);
                num(h.compute(a, &[]).unwrap().value + h.compute(b, &[]).unwrap().value)
            }
            Comp::SumDiv(a, b, c) => {
                h.add_edge(a);
                h.add_edge(b);
                h.add_edge(c);
                let x = h.compute(a, &[]).unwrap().value;
                let y = h.compute(b, &[]).unwrap().value;
                let z = h.compute(c, &[]).unwrap().value;
                num((x + y + z) / h.args[0].value)
            }
        }
    }
}

#[test]
fn it_works() {
    let mut graph: Graph<Num, Comp> = Graph::new();

    let r1 = graph.new_aref(num(8.0));
    let r2 = graph.new_aref(num(10.0));
    let r3 = graph.new_aref(num(2.0));

    let a1 = graph.new_athunk(adapton_graph::Thunk::Derived(Comp::Sub(r2, r1)));
    let a2 = graph.new_athunk(adapton_graph::Thunk::Derived(Comp::Add(r3, r1)));
    let a3 = graph.new_athunk(adapton_graph::Thunk::Derived(Comp::SumDiv(r2, a1, a2)));

    assert_eq!(Some(num(10.0)), graph.compute(a2, &[]));
    assert_eq!(Some(num(22.0)), graph.compute(a3, &[num(1.0)]));
    assert_eq!(Some(num(11.0)), graph.compute(a3, &[num(2.0)]));
    assert_eq!(Some(num(22.0)), graph.compute(a3, &[num(1.0)]));
    assert_eq!(Some(num(11.0)), graph.compute(a3, &[num(2.0)]));

    graph.update_aref(r2, num(6.0));

    assert_eq!(Some(num(10.0)), graph.compute(a2, &[]));
    assert_eq!(Some(num(14.0)), graph.compute(a3, &[num(1.0)]));
    assert_eq!(Some(num(7.0)), graph.compute(a3, &[num(2.0)]));
    assert_eq!(Some(num(14.0)), graph.compute(a3, &[num(1.0)]));
    assert_eq!(Some(num(7.0)), graph.compute(a3, &[num(2.0)]));
}
