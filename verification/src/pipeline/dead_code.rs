//! Dead code detection by reachability on the call graph.

use vstd::prelude::*;

use crate::graph::query::{dead_function_rows, Query};
use crate::graph::store::{strings_v, NodeV, Store};

verus! {

/// Compute the dead (unreachable) functions and record them: afterwards the dead-function
/// relation holds exactly the ids of the function nodes that no entry point reaches.
pub fn detect_dead_code(store: &mut Store)
    requires
        old(store).wf(),
    ensures
        final(store).wf(),
        final(store).dead_set() == dead_function_rows(*old(store)).map_values(|r: NodeV| r.0).to_set(),
        final(store).node_rows() == old(store).node_rows(),
        final(store).edge_rows() == old(store).edge_rows(),
{
    let dead = Query::compute_dead_functions(store);
    let ghost ids = strings_v(dead@);
    store.clear_dead_functions();
    assert(store.dead_set() =~= Set::<Seq<char>>::empty());
    let mut i: usize = 0;
    while i < dead.len()
        invariant
            i <= dead.len(),
            ids == strings_v(dead@),
            ids == dead_function_rows(*old(store)).map_values(|r: NodeV| r.0),
            store.wf(),
            store.dead_set() == ids.take(i as int).to_set(),
            store.node_rows() == old(store).node_rows(),
            store.edge_rows() == old(store).edge_rows(),
        decreases dead.len() - i,
    {
        store.put_dead_function(dead[i].as_str());
        proof {
            assert(ids[i as int] == dead@[i as int]@);
            assert(ids.take(i + 1) =~= ids.take(i as int).push(ids[i as int]));
            assert(ids.take(i + 1).to_set() =~= ids.take(i as int).to_set().insert(ids[i as int])) by {
                assert forall|x: Seq<char>| #[trigger] ids.take(i + 1).to_set().contains(x) <==> ids.take(
                    i as int,
                ).to_set().insert(ids[i as int]).contains(x) by {
                    if ids.take(i as int).contains(x) {
                        let k = choose|k: int| 0 <= k < i && ids.take(i as int)[k] == x;
                        assert(ids.take(i + 1)[k] == x);
                    }
                    if x == ids[i as int] {
                        assert(ids.take(i + 1)[i as int] == x);
                    }
                    if ids.take(i + 1).contains(x) {
                        let t1 = ids.take(i + 1);
                        let k = choose|k: int| 0 <= k < t1.len() && #[trigger] t1[k] == x;
                        if k < i {
                            assert(ids.take(i as int)[k] == x);
                        }
                    }
                }
            }
        }
        i = i + 1;
    }
    assert(ids.take(dead.len() as int) =~= ids);
}

} // verus!
