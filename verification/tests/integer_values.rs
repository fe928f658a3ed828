use adapton_graph::AThunkID;
use adapton_graph::Graph;
use adapton_graph::Handle;
use adapton_graph::Thunk;
use adapton_graph::ThunkFn;

enum IComp {
    Scale(AThunkID),
}

impl ThunkFn<u64> for IComp {
    fn run(&self, h: &mut Handle<u64, IComp>) -> u64 {
        match *self {
            IComp::Scale(dep) => {
                h.add_edge(dep);
                let base = h.compute(dep, &[]).unwrap();
                base * h.args[0]
            }
        }
    }
}

#[test]
fn integer_arguments_key_exactly() {
    let mut graph: Graph<u64, IComp> = Graph::new();
    let leaf = graph.new_aref(7);
    let node = graph.new_athunk(Thunk::Derived(IComp::Scale(leaf)));
    assert_eq!(Some(14), graph.compute(node, &[2]));
    assert_eq!(Some(21), graph.compute(node, &[3]));
    // Integer keys are exact: each argument keeps its own cache entry.
    assert_eq!(Some(14), graph.compute(node, &[2]));
    assert_eq!(Some(21), graph.compute(node, &[3]));
    graph.update_aref(leaf, 10);
    assert_eq!(Some(20), graph.compute(node, &[2]));
    assert_eq!(Some(30), graph.compute(node, &[3]));
}

#[test]
fn default_graph_is_empty() {
    let graph: Graph<u64, IComp> = Default::default();
    assert_eq!(0, graph.len());
}

#[test]
fn leaf_thunk_can_be_created_directly() {
    let mut graph: Graph<u64, IComp> = Graph::new();
    let leaf = graph.new_athunk(Thunk::Leaf(11));
    assert_eq!(Some(11), graph.compute(leaf, &[]));
    assert_eq!(Some(11), graph.compute(leaf, &[4]));
}
