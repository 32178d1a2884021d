//! Rehydration planning: which captured nodes survive the user's staging
//! exclusions.

use vstd::prelude::*;

use crate::order;
use crate::text;
use crate::text::holds;
use crate::types::{WindowNode, WindowNodeView, WorkspaceState};

verus! {

/// The nodes that are not excluded, in order.
pub open spec fn included(nodes: Seq<WindowNodeView>, excluded: Seq<Seq<char>>) -> Seq<
    WindowNodeView,
> {
    nodes.filter(|n: WindowNodeView| !excluded.contains(n.node_id))
}

/// The nodes that will actually be rehydrated. Ids that no node has are
/// ignored.
pub fn included_nodes(workspace: &WorkspaceState, excluded_node_ids: &Vec<String>) -> (r: Vec<
    WindowNode,
>)
    ensures
        r.deep_view() == included(workspace.deep_view().nodes, excluded_node_ids.deep_view()),
{
    let ghost all = workspace.nodes.deep_view();
    let ghost excluded = excluded_node_ids.deep_view();
    let ghost keep = |n: WindowNodeView| !excluded.contains(n.node_id);
    let mut out: Vec<WindowNode> = Vec::new();
    let mut i: usize = 0;
    reveal(Seq::filter);
    assert(out.deep_view() =~= all.take(0).filter(keep));
    while i < workspace.nodes.len()
        invariant
            i <= workspace.nodes.len(),
            all == workspace.nodes.deep_view(),
            excluded == excluded_node_ids.deep_view(),
            keep == (|n: WindowNodeView| !excluded.contains(n.node_id)),
            out.deep_view() == all.take(i as int).filter(keep),
        decreases workspace.nodes.len() - i,
    {
        let ghost before = out.deep_view();
        proof {
            reveal(Seq::filter);
            text::lemma_take_step(all, i as int);
        }
        let node = &workspace.nodes[i];
        if !holds(excluded_node_ids, node.node_id.as_str()) {
            out.push(node.clone());
            assert(out.deep_view() =~= before.push(all[i as int]));
        }
        i = i + 1;
    }
    assert(all.take(all.len() as int) =~= all);
    out
}

/// A node is rehydrated exactly when it was captured and not excluded.
pub proof fn exactly_the_rest_is_included(
    nodes: Seq<WindowNodeView>,
    excluded: Seq<Seq<char>>,
    n: WindowNodeView,
)
    ensures
        included(nodes, excluded).contains(n) <==> nodes.contains(n) && !excluded.contains(
            n.node_id,
        ),
{
    broadcast use vstd::seq_lib::group_filter_ensures;

    let keep = |n: WindowNodeView| !excluded.contains(n.node_id);
    order::lemma_filtered(nodes, keep);
    if nodes.contains(n) && keep(n) {
        let i = choose|i: int| 0 <= i < nodes.len() && nodes[i] == n;
        assert(nodes.filter(keep).contains(nodes[i]));
    }
}

/// Windows that take part stay in their order, each as often as it occurs; one
/// more window takes part exactly where it is not excluded.
pub proof fn included_windows_keep_their_order(
    nodes: Seq<WindowNodeView>,
    n: WindowNodeView,
    excluded: Seq<Seq<char>>,
)
    ensures
        included(Seq::empty(), excluded).len() == 0,
        included(nodes.push(n), excluded) == if excluded.contains(n.node_id) {
            included(nodes, excluded)
        } else {
            included(nodes, excluded).push(n)
        },
{
    reveal(Seq::filter);
    assert(nodes.push(n).drop_last() =~= nodes);
}

} // verus!
