//! What holds of every search: visit accounting, growth, expansion and the
//! treatment of a terminal root.

use crate::game::{GameAction, GameState, Player};
use crate::invariants::{
    lemma_iterate_sound, lemma_search_sound, lemma_untried_after_child, lemma_untried_of_leaf,
    lemma_untried_same_actions, stalls,
};
use crate::model::{forest_count, iterate, pick, recommended, search, NodeView};
use crate::search_node::NodeState;
use crate::tree_policy::TreePolicy;
use vstd::prelude::*;

verus! {

impl<A, Pl> NodeView<A, Pl> {
    /// Whether this tree has grown out of `before`: every node of `before`
    /// is still in its place, with its action and at least its visits.
    pub open spec fn grown_from(self, before: Self) -> bool
        decreases before,
    {
        &&& self.action == before.action
        &&& self.visits >= before.visits
        &&& self.children.len() >= before.children.len()
        &&& forall|i: int|
            0 <= i < before.children.len() ==> (#[trigger] self.children[i]).grown_from(before.children[i])
    }
}

/// A tree has grown out of itself.
pub proof fn lemma_grown_from_itself<A, Pl>(node: NodeView<A, Pl>)
    ensures
        node.grown_from(node),
    decreases node,
{
    assert forall|i: int| 0 <= i < node.children.len() implies (#[trigger] node.children[i]).grown_from(
        node.children[i],
    ) by {
        lemma_grown_from_itself(node.children[i]);
    }
}

/// Growth carries over: what has grown out of a tree that has grown out of
/// a third has grown out of the third.
pub proof fn lemma_grown_from_chain<A, Pl>(last: NodeView<A, Pl>, middle: NodeView<A, Pl>, first: NodeView<A, Pl>)
    requires
        last.grown_from(middle),
        middle.grown_from(first),
    ensures
        last.grown_from(first),
    decreases first,
{
    assert forall|i: int| 0 <= i < first.children.len() implies (#[trigger] last.children[i]).grown_from(
        first.children[i],
    ) by {
        assert(middle.children[i].grown_from(first.children[i]));
        lemma_grown_from_chain(last.children[i], middle.children[i], first.children[i]);
    }
}

/// Visit counts never drop: after an iteration every node of the tree is
/// still in its place with at least the visits it had.
pub proof fn lemma_iterate_grows<S: GameState<A, Pl>, A: GameAction, Pl: Player, Po: TreePolicy<A, Pl>>(
    node: NodeView<A, Pl>,
    game: S,
    policy: Po,
    draws: Seq<nat>,
)
    requires
        node.wf(),
        node.consistent(game),
    ensures
        iterate(node, game, policy, draws).node.grown_from(node),
    decreases node,
{
    let after = iterate(node, game, policy, draws).node;
    lemma_iterate_sound(node, game, policy, draws);
    assert forall|j: int| 0 <= j < node.children.len() implies (#[trigger] after.children[j]).grown_from(
        node.children[j],
    ) by {
        lemma_grown_from_itself(node.children[j]);
        if node.state is Expanded {
            let i = policy.choice(node, game.turn() == node.root_player) as int;
            policy.lemma_choice_in_range(node, game.turn() == node.root_player);
            if j == i {
                lemma_iterate_grows(
                    node.children[i],
                    game.successor(node.children[i].action.unwrap()),
                    policy,
                    draws,
                );
            }
        }
    }
}

/// Visit counts never drop over a search either.
pub proof fn lemma_search_grows<S: GameState<A, Pl>, A: GameAction, Pl: Player, Po: TreePolicy<A, Pl>>(
    node: NodeView<A, Pl>,
    game: S,
    policy: Po,
    draws: Seq<nat>,
    iterations: nat,
)
    requires
        node.wf(),
        node.consistent(game),
    ensures
        search(node, game, policy, draws, iterations).node.grown_from(node),
    decreases iterations,
{
    if iterations == 0 {
        lemma_grown_from_itself(node);
    } else {
        let earlier = search(node, game, policy, draws, (iterations - 1) as nat);
        lemma_search_grows(node, game, policy, draws, (iterations - 1) as nat);
        lemma_search_sound(node, game, policy, draws, (iterations - 1) as nat);
        lemma_iterate_grows(earlier.node, game, policy, draws.skip(earlier.draws as int));
        lemma_grown_from_chain(
            search(node, game, policy, draws, iterations).node,
            earlier.node,
            node,
        );
    }
}

/// A second search continues the first: the visits of the root add up
/// rather than start again, and no visit count in the tree drops.
pub proof fn lemma_search_resumes<S: GameState<A, Pl>, A: GameAction, Pl: Player, Po: TreePolicy<A, Pl>>(
    node: NodeView<A, Pl>,
    game: S,
    policy: Po,
    first_draws: Seq<nat>,
    first_iterations: nat,
    second_draws: Seq<nat>,
    second_iterations: nat,
)
    requires
        node.wf(),
        node.consistent(game),
    ensures
        ({
            let first = search(node, game, policy, first_draws, first_iterations);
            let second = search(first.node, game, policy, second_draws, second_iterations);
            &&& first.node.grown_from(node)
            &&& second.node.grown_from(first.node)
            &&& second.node.visits == node.visits + first_iterations + second_iterations - (if stalls(
                node,
                game,
            ) && first_iterations + second_iterations > 0 {
                1nat
            } else {
                0nat
            })
        }),
{
    let first = search(node, game, policy, first_draws, first_iterations);
    lemma_search_sound(node, game, policy, first_draws, first_iterations);
    lemma_search_sound(first.node, game, policy, second_draws, second_iterations);
    lemma_search_grows(node, game, policy, first_draws, first_iterations);
    lemma_search_grows(first.node, game, policy, second_draws, second_iterations);
}

/// A fresh root is well formed and fits every position.
pub proof fn lemma_fresh_root_fits<S: GameState<A, Pl>, A: GameAction, Pl: Player>(
    action: Option<A>,
    root_player: Pl,
    game: S,
)
    ensures
        NodeView::fresh(action, root_player).wf(),
        NodeView::fresh(action, root_player).consistent(game),
{
    let root = NodeView::fresh(action, root_player);
    lemma_untried_of_leaf(root, game.legal_actions());
    assert(forest_count(root.children) == 0);
}

/// Visit accounting: after any number of iterations from a fresh tree the
/// root has one visit for each of them, but for the first where the root
/// position is terminal, and the tree has one node for the root and one for
/// every expansion, of which there is at most one in each iteration.
pub proof fn lemma_fresh_tree_accounting<
    S: GameState<A, Pl>,
    A: GameAction,
    Pl: Player,
    Po: TreePolicy<A, Pl>,
>(game: S, policy: Po, draws: Seq<nat>, iterations: nat)
    ensures
        ({
            let after = search(NodeView::<A, Pl>::fresh(None, game.turn()), game, policy, draws, iterations);
            &&& game.legal_actions().len() > 0 ==> after.node.visits == iterations
            &&& game.legal_actions().len() == 0 && iterations > 0 ==> after.node.visits == iterations - 1
            &&& after.node.node_count() == 1 + after.expansions
            &&& after.expansions <= iterations
            &&& after.node.node_count() <= iterations + 1
        }),
{
    let root = NodeView::<A, Pl>::fresh(None, game.turn());
    lemma_fresh_root_fits(None::<A>, game.turn(), game);
    lemma_search_sound(root, game, policy, draws, iterations);
    assert(forest_count(root.children) == 0);
}

/// A terminal position searched directly: the first iteration marks the
/// root as a terminal leaf, no child is ever created, and there is no
/// action to recommend.
pub proof fn lemma_terminal_root<S: GameState<A, Pl>, A: GameAction, Pl: Player, Po: TreePolicy<A, Pl>>(
    game: S,
    policy: Po,
    draws: Seq<nat>,
    iterations: nat,
)
    requires
        game.legal_actions().len() == 0,
        iterations > 0,
    ensures
        ({
            let after = search(NodeView::<A, Pl>::fresh(None, game.turn()), game, policy, draws, iterations);
            &&& after.node.state is TerminalLeaf
            &&& after.node.children.len() == 0
            &&& after.node.root_player == game.turn()
            &&& after.expansions == 0
            &&& after.draws == 0
            &&& after.node.total_value == (iterations - 1) * game.reward(game.turn())
            &&& recommended(after.node) is None
        }),
    decreases iterations,
{
    let root = NodeView::<A, Pl>::fresh(None, game.turn());
    if iterations > 1 {
        lemma_terminal_root(game, policy, draws, (iterations - 1) as nat);
        assert((iterations - 1) * game.reward(game.turn()) == (iterations - 2) * game.reward(game.turn())
            + game.reward(game.turn())) by (nonlinear_arith);
    } else {
        assert(search(root, game, policy, draws, 0).node == root);
    }
}

/// The tree after `times` expansions of `node` at a position offering
/// `actions`, the `i`-th taking its draws from `draws[i]`.
pub open spec fn expanded_times<A, Pl>(
    node: NodeView<A, Pl>,
    actions: Seq<A>,
    draws: Seq<Seq<nat>>,
    times: nat,
) -> NodeView<A, Pl>
    decreases times,
{
    if times == 0 {
        node
    } else {
        expanded_times(node, actions, draws, (times - 1) as nat).expanded_with(actions, draws[times - 1])
    }
}

/// Expansion completeness: a fresh node at a position with `n` different
/// actions has, after `k <= n` expansions, `k` children that stand for
/// different actions among them, and counts as expanded exactly when
/// `k == n`.
pub proof fn lemma_expansion_complete<A, Pl>(
    action: Option<A>,
    root_player: Pl,
    actions: Seq<A>,
    draws: Seq<Seq<nat>>,
    times: nat,
)
    requires
        actions.no_duplicates(),
        0 < times <= actions.len(),
    ensures
        ({
            let after = expanded_times(NodeView::fresh(action, root_player), actions, draws, times);
            &&& after.children.len() == times
            &&& after.untried(actions).len() == actions.len() - times
            &&& after.distinct_children()
            &&& forall|i: int|
                0 <= i < times ==> (#[trigger] after.children[i]).action is Some && actions.contains(
                    after.children[i].action.unwrap(),
                )
            &&& after.state == (if times == actions.len() {
                NodeState::Expanded
            } else {
                NodeState::ExpandableLeaf
            })
        }),
    decreases times,
{
    let root = NodeView::fresh(action, root_player);
    let earlier = expanded_times(root, actions, draws, (times - 1) as nat);
    if times == 1 {
        lemma_untried_of_leaf(root, actions);
    } else {
        lemma_expansion_complete(action, root_player, actions, draws, (times - 1) as nat);
    }
    let candidates = earlier.untried(actions);
    let k = if candidates.len() == 1 {
        0
    } else {
        pick(draws[times - 1], candidates.len())
    };
    let after = earlier.expanded_with(actions, draws[times - 1]);
    lemma_untried_after_child(earlier, actions, k, after.children.last());
    lemma_untried_same_actions(
        after,
        NodeView { children: earlier.children.push(after.children.last()), ..earlier },
        actions,
    );
    assert forall|i: int| 0 <= i < times implies (#[trigger] after.children[i]).action is Some
        && actions.contains(after.children[i].action.unwrap()) by {
        if i < times - 1 {
            assert(after.children[i] == earlier.children[i]);
        }
    }
}

/// Expansion completeness over a search: from a fresh root at a position
/// with `n >= 1` actions, each of the first `n` iterations gives the root
/// one more child and the tree one more node. After `k` iterations the
/// root has `min(k, n)` children, which stand for different legal actions,
/// and it counts as expanded exactly when `k >= n`.
pub proof fn lemma_search_expands_root<
    S: GameState<A, Pl>,
    A: GameAction,
    Pl: Player,
    Po: TreePolicy<A, Pl>,
>(game: S, policy: Po, draws: Seq<nat>, iterations: nat)
    requires
        game.legal_actions().len() > 0,
    ensures
        ({
            let n = game.legal_actions().len();
            let after = search(NodeView::<A, Pl>::fresh(None, game.turn()), game, policy, draws, iterations);
            &&& after.node.children.len() == (if iterations <= n {
                iterations
            } else {
                n
            })
            &&& after.node.state == (if iterations >= n {
                NodeState::Expanded
            } else {
                NodeState::ExpandableLeaf
            })
            &&& after.node.distinct_children()
            &&& forall|i: int|
                0 <= i < after.node.children.len() ==> (#[trigger] after.node.children[i]).action is Some
                    && game.legal_actions().contains(after.node.children[i].action.unwrap())
            &&& iterations <= n ==> after.expansions == iterations && after.node.node_count()
                == iterations + 1
        }),
    decreases iterations,
{
    let root = NodeView::<A, Pl>::fresh(None, game.turn());
    lemma_fresh_root_fits(None::<A>, game.turn(), game);
    lemma_search_sound(root, game, policy, draws, iterations);
    assert(forest_count(root.children) == 0);
    if iterations > 0 {
        let earlier = search(root, game, policy, draws, (iterations - 1) as nat);
        lemma_search_expands_root(game, policy, draws, (iterations - 1) as nat);
        lemma_search_sound(root, game, policy, draws, (iterations - 1) as nat);
        lemma_iterate_sound(earlier.node, game, policy, draws.skip(earlier.draws as int));
        if earlier.node.state is Expanded {
            policy.lemma_choice_in_range(earlier.node, game.turn() == earlier.node.root_player);
        }
    }
}

} // verus!
