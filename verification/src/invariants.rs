//! What an iteration preserves: the proofs that the model of one iteration
//! keeps a tree well formed and fitted to its position.

use crate::game::{GameAction, GameState, Player};
use crate::model::{forest_count, iterate, pick, playout, search, NodeView};
use crate::search_node::NodeState;
use crate::tree_policy::TreePolicy;
use vstd::prelude::*;

verus! {

/// Filtering by two predicates that agree on the elements gives one result.
pub proof fn lemma_filter_agree<T>(s: Seq<T>, p: spec_fn(T) -> bool, q: spec_fn(T) -> bool)
    requires
        forall|i: int| 0 <= i < s.len() ==> p(#[trigger] s[i]) == q(s[i]),
    ensures
        s.filter(p) == s.filter(q),
    decreases s.len(),
{
    reveal(Seq::filter);
    if s.len() > 0 {
        lemma_filter_agree(s.drop_last(), p, q);
    }
}

/// A filter that every element passes keeps the sequence.
pub proof fn lemma_filter_all<T>(s: Seq<T>, p: spec_fn(T) -> bool)
    requires
        forall|i: int| 0 <= i < s.len() ==> p(#[trigger] s[i]),
    ensures
        s.filter(p) == s,
    decreases s.len(),
{
    reveal(Seq::filter);
    if s.len() > 0 {
        lemma_filter_all(s.drop_last(), p);
        assert(s.drop_last().push(s.last()) =~= s);
    }
}

/// Every element that passes a filter comes from the sequence.
pub proof fn lemma_filter_subset<T>(s: Seq<T>, p: spec_fn(T) -> bool, i: int)
    requires
        0 <= i < s.filter(p).len(),
    ensures
        s.contains(s.filter(p)[i]),
        p(s.filter(p)[i]),
    decreases s.len(),
{
    reveal(Seq::filter);
    if s.len() > 0 {
        let rest = s.drop_last();
        if i < rest.filter(p).len() {
            lemma_filter_subset(rest, p, i);
            let j = choose|j: int| 0 <= j < rest.len() && rest[j] == rest.filter(p)[i];
            assert(s[j] == s.filter(p)[i]);
        } else {
            assert(s[s.len() - 1] == s.filter(p)[i]);
        }
    }
}

/// Excluding from a filter one element that passed it, where nothing occurs
/// twice, shortens the result by exactly one.
pub proof fn lemma_filter_without<T>(s: Seq<T>, p: spec_fn(T) -> bool, q: spec_fn(T) -> bool, c: T)
    requires
        s.no_duplicates(),
        s.contains(c),
        p(c),
        forall|a: T| #[trigger] q(a) == (p(a) && a != c),
    ensures
        s.filter(q).len() + 1 == s.filter(p).len(),
    decreases s.len(),
{
    reveal(Seq::filter);
    let rest = s.drop_last();
    if s.last() == c {
        assert forall|i: int| 0 <= i < rest.len() implies p(#[trigger] rest[i]) == q(rest[i]) by {
            assert(s[i] != s[s.len() - 1]);
        }
        lemma_filter_agree(rest, p, q);
    } else {
        let j = choose|j: int| 0 <= j < s.len() && s[j] == c;
        assert(rest[j] == c);
        lemma_filter_without(rest, p, q, c);
    }
}

/// A forest with one more tree has that tree's nodes more.
pub proof fn lemma_forest_push<A, Pl>(forest: Seq<NodeView<A, Pl>>, tree: NodeView<A, Pl>)
    ensures
        forest_count(forest.push(tree)) == forest_count(forest) + tree.node_count(),
{
    assert(forest.push(tree).drop_last() =~= forest);
}

/// Replacing one tree of a forest changes the count by the difference of
/// the two trees.
pub proof fn lemma_forest_update<A, Pl>(forest: Seq<NodeView<A, Pl>>, i: int, tree: NodeView<A, Pl>)
    requires
        0 <= i < forest.len(),
    ensures
        forest_count(forest.update(i, tree)) + forest[i].node_count() == forest_count(forest)
            + tree.node_count(),
    decreases forest.len(),
{
    let rest = forest.drop_last();
    if i == forest.len() - 1 {
        assert(forest.update(i, tree).drop_last() =~= rest);
    } else {
        lemma_forest_update(rest, i, tree);
        assert(forest.update(i, tree).drop_last() =~= rest.update(i, tree));
    }
}

/// A playout ends where no move is left.
pub proof fn lemma_playout_ends<S: GameState<A, Pl>, A: GameAction, Pl: Player>(game: S, draws: Seq<nat>)
    ensures
        playout(game, draws).0.legal_actions().len() == 0,
    decreases game.plies_left(),
{
    let actions = game.legal_actions();
    if actions.len() > 0 {
        let action = actions[pick(draws, actions.len())];
        game.lemma_successor_closer(action);
        lemma_playout_ends(game.successor(action), draws.skip(1));
    }
}

/// A node without children has every action left to try.
pub proof fn lemma_untried_of_leaf<A, Pl>(node: NodeView<A, Pl>, actions: Seq<A>)
    requires
        node.children.len() == 0,
    ensures
        node.untried(actions) == actions,
{
    lemma_filter_all(actions, |a: A| !node.has_child_for(a));
}

/// What is left to try depends on the children's actions alone.
pub proof fn lemma_untried_same_actions<A, Pl>(
    node: NodeView<A, Pl>,
    other: NodeView<A, Pl>,
    actions: Seq<A>,
)
    requires
        node.children.len() == other.children.len(),
        forall|i: int|
            0 <= i < node.children.len() ==> (#[trigger] node.children[i]).action
                == other.children[i].action,
    ensures
        node.untried(actions) == other.untried(actions),
        node.distinct_children() == other.distinct_children(),
{
    assert forall|a: A| node.has_child_for(a) == other.has_child_for(a) by {
        if node.has_child_for(a) {
            let i = choose|i: int|
                0 <= i < node.children.len() && (#[trigger] node.children[i]).action == Some(a);
            assert(other.children[i].action == Some(a));
        }
        if other.has_child_for(a) {
            let i = choose|i: int|
                0 <= i < other.children.len() && (#[trigger] other.children[i]).action == Some(a);
            assert(node.children[i].action == Some(a));
        }
    }
    lemma_filter_agree(actions, |a: A| !node.has_child_for(a), |a: A| !other.has_child_for(a));
    if node.distinct_children() {
        assert forall|i: int, j: int| 0 <= i < j < other.children.len() implies (
        #[trigger] other.children[i]).action != (#[trigger] other.children[j]).action by {
            assert(node.children[i].action != node.children[j].action);
        }
    }
    if other.distinct_children() {
        assert forall|i: int, j: int| 0 <= i < j < node.children.len() implies (
        #[trigger] node.children[i]).action != (#[trigger] node.children[j]).action by {
            assert(other.children[i].action != other.children[j].action);
        }
    }
}

/// Giving an untried action a child leaves one action less to try, and the
/// children still stand for different actions.
pub proof fn lemma_untried_after_child<A, Pl>(
    node: NodeView<A, Pl>,
    actions: Seq<A>,
    k: int,
    child: NodeView<A, Pl>,
)
    requires
        actions.no_duplicates(),
        node.distinct_children(),
        0 <= k < node.untried(actions).len(),
        child.action == Some(node.untried(actions)[k]),
    ensures
        actions.contains(node.untried(actions)[k]),
        !node.has_child_for(node.untried(actions)[k]),
        (NodeView { children: node.children.push(child), ..node }).untried(actions).len() + 1
            == node.untried(actions).len(),
        (NodeView { children: node.children.push(child), ..node }).distinct_children(),
{
    let grown = NodeView { children: node.children.push(child), ..node };
    let c = node.untried(actions)[k];
    let p = |a: A| !node.has_child_for(a);
    let q = |a: A| !grown.has_child_for(a);
    lemma_filter_subset(actions, p, k);
    assert forall|a: A| #[trigger] q(a) == (p(a) && a != c) by {
        if node.has_child_for(a) {
            let i = choose|i: int|
                0 <= i < node.children.len() && (#[trigger] node.children[i]).action == Some(a);
            assert(grown.children[i].action == Some(a));
        }
        if a == c {
            assert(grown.children[node.children.len() as int].action == Some(a));
        }
        if grown.has_child_for(a) {
            let i = choose|i: int|
                0 <= i < grown.children.len() && (#[trigger] grown.children[i]).action == Some(a);
            if i < node.children.len() {
                assert(node.children[i].action == Some(a));
            }
        }
    }
    lemma_filter_without(actions, p, q, c);
    assert forall|i: int, j: int| 0 <= i < j < grown.children.len() implies (
    #[trigger] grown.children[i]).action != (#[trigger] grown.children[j]).action by {
        if j < node.children.len() {
            assert(node.children[i].action != node.children[j].action);
        } else {
            assert(grown.children[i] == node.children[i]);
            if node.children[i].action == Some(c) {
                assert(node.has_child_for(c));
            }
        }
    }
}

/// Whether an iteration at `node` only finds out that the position is
/// terminal: the one case in which the node's statistics stay as they are.
pub open spec fn stalls<S: GameState<A, Pl>, A: GameAction, Pl: Player>(
    node: NodeView<A, Pl>,
    game: S,
) -> bool {
    node.state is ExpandableLeaf && game.legal_actions().len() == 0
}

/// One iteration keeps the tree well formed and fitted to its position,
/// ends at a terminal position whose reward it returns, counts one visit
/// and the reward at the node unless it stalls there, and adds one node to
/// the tree exactly when it expands.
pub proof fn lemma_iterate_sound<S: GameState<A, Pl>, A: GameAction, Pl: Player, Po: TreePolicy<A, Pl>>(
    node: NodeView<A, Pl>,
    game: S,
    policy: Po,
    draws: Seq<nat>,
)
    requires
        node.wf(),
        node.consistent(game),
    ensures
        ({
            let after = iterate(node, game, policy, draws);
            &&& after.node.wf()
            &&& after.node.consistent(game)
            &&& after.node.action == node.action
            &&& after.node.root_player == node.root_player
            &&& after.end.legal_actions().len() == 0
            &&& after.reward == after.end.reward(node.root_player)
            &&& i32::MIN <= after.reward <= i32::MAX
            &&& after.node.visits == node.visits + (if stalls(node, game) {
                0nat
            } else {
                1nat
            })
            &&& after.node.total_value == node.total_value + (if stalls(node, game) {
                0
            } else {
                after.reward
            })
            &&& after.node.node_count() == node.node_count() + (if after.expanded {
                1nat
            } else {
                0nat
            })
            &&& after.expanded ==> !stalls(node, game)
        }),
    decreases node,
{
    let after = iterate(node, game, policy, draws);
    let actions = game.legal_actions();
    game.lemma_actions_distinct();
    match node.state {
        NodeState::TerminalLeaf => {
            game.lemma_reward_bounded(node.root_player);
            lemma_untried_same_actions(node, after.node, actions);
        },
        NodeState::ExpandableLeaf => {
            if actions.len() == 0 {
                game.lemma_reward_bounded(node.root_player);
                lemma_untried_same_actions(node, after.node, actions);
            } else {
                let candidates = node.untried(actions);
                let k = if candidates.len() == 1 {
                    0
                } else {
                    pick(draws, candidates.len())
                };
                let grown = node.expanded_with(actions, draws);
                let child = grown.children.last();
                assert(child == NodeView::fresh(Some(candidates[k]), node.root_player));
                lemma_untried_after_child(node, actions, k, child);
                let next = game.successor(candidates[k]);
                let first = node.expansion_draws(actions);
                lemma_playout_ends(next, draws.skip(first as int));
                after.end.lemma_reward_bounded(node.root_player);
                let seen = child.credited(after.reward);
                assert(seen.children =~= Seq::empty());
                lemma_untried_of_leaf(seen, next.legal_actions());
                assert(seen.consistent(next));
                assert(forest_count(seen.children) == 0);
                assert(seen.wf());
                lemma_forest_push(node.children, seen);
                let shown = NodeView { children: node.children.push(child), ..node };
                lemma_untried_same_actions(shown, after.node, actions);
                assert(after.node.children.len() == node.children.len() + 1);
                assert forall|i: int| 0 <= i < after.node.children.len() implies {
                    &&& (#[trigger] after.node.children[i]).action is Some
                    &&& after.node.children[i].root_player == after.node.root_player
                    &&& after.node.children[i].visits <= after.node.visits
                    &&& after.node.children[i].wf()
                    &&& actions.contains(after.node.children[i].action.unwrap())
                    &&& after.node.children[i].consistent(
                        game.successor(after.node.children[i].action.unwrap()),
                    )
                } by {
                    if i < node.children.len() {
                        assert(after.node.children[i] == node.children[i]);
                    }
                }
            }
        },
        NodeState::Expanded => {
            let i = policy.choice(node, game.turn() == node.root_player) as int;
            policy.lemma_choice_in_range(node, game.turn() == node.root_player);
            let child = node.children[i];
            let next = game.successor(child.action.unwrap());
            lemma_iterate_sound(child, next, policy, draws);
            lemma_forest_update(node.children, i, after.node.children[i]);
            lemma_untried_same_actions(node, after.node, actions);
            assert forall|j: int| 0 <= j < after.node.children.len() implies {
                &&& (#[trigger] after.node.children[j]).action is Some
                &&& after.node.children[j].root_player == after.node.root_player
                &&& after.node.children[j].visits <= after.node.visits
                &&& after.node.children[j].wf()
                &&& actions.contains(after.node.children[j].action.unwrap())
                &&& after.node.children[j].consistent(
                    game.successor(after.node.children[j].action.unwrap()),
                )
            } by {
                if j != i {
                    assert(after.node.children[j] == node.children[j]);
                }
            }
        },
    }
}

/// A playout reads no draw beyond those it counts.
pub proof fn lemma_playout_prefix<S: GameState<A, Pl>, A: GameAction, Pl: Player>(
    game: S,
    draws: Seq<nat>,
    more: Seq<nat>,
)
    requires
        playout(game, draws).1 <= draws.len(),
    ensures
        playout(game, draws + more) == playout(game, draws),
    decreases game.plies_left(),
{
    let actions = game.legal_actions();
    if actions.len() > 0 {
        let action = actions[pick(draws, actions.len())];
        game.lemma_successor_closer(action);
        assert((draws + more).skip(1) =~= draws.skip(1) + more);
        lemma_playout_prefix(game.successor(action), draws.skip(1), more);
    }
}

/// An iteration reads no draw beyond those it counts.
pub proof fn lemma_iterate_prefix<S: GameState<A, Pl>, A: GameAction, Pl: Player, Po: TreePolicy<A, Pl>>(
    node: NodeView<A, Pl>,
    game: S,
    policy: Po,
    draws: Seq<nat>,
    more: Seq<nat>,
)
    requires
        iterate(node, game, policy, draws).draws <= draws.len(),
    ensures
        iterate(node, game, policy, draws + more) == iterate(node, game, policy, draws),
    decreases node,
{
    match node.state {
        NodeState::TerminalLeaf => {},
        NodeState::ExpandableLeaf => {
            let actions = game.legal_actions();
            if actions.len() > 0 {
                let first = node.expansion_draws(actions);
                let grown = node.expanded_with(actions, draws);
                assert(grown == node.expanded_with(actions, draws + more));
                let next = game.successor(grown.children.last().action.unwrap());
                assert((draws + more).skip(first as int) =~= draws.skip(first as int) + more);
                lemma_playout_prefix(next, draws.skip(first as int), more);
            }
        },
        NodeState::Expanded => {
            let i = policy.choice(node, game.turn() == node.root_player) as int;
            if i < node.children.len() {
                let child = node.children[i];
                lemma_iterate_prefix(child, game.successor(child.action.unwrap()), policy, draws, more);
            }
        },
    }
}

/// A search reads no draw beyond those it counts.
pub proof fn lemma_search_prefix<S: GameState<A, Pl>, A: GameAction, Pl: Player, Po: TreePolicy<A, Pl>>(
    node: NodeView<A, Pl>,
    game: S,
    policy: Po,
    draws: Seq<nat>,
    more: Seq<nat>,
    iterations: nat,
)
    requires
        search(node, game, policy, draws, iterations).draws <= draws.len(),
    ensures
        search(node, game, policy, draws + more, iterations) == search(
            node,
            game,
            policy,
            draws,
            iterations,
        ),
    decreases iterations,
{
    if iterations > 0 {
        let earlier = search(node, game, policy, draws, (iterations - 1) as nat);
        lemma_search_prefix(node, game, policy, draws, more, (iterations - 1) as nat);
        assert((draws + more).skip(earlier.draws as int) =~= draws.skip(earlier.draws as int) + more);
        lemma_iterate_prefix(earlier.node, game, policy, draws.skip(earlier.draws as int), more);
    }
}

/// A search keeps the tree well formed and fitted to its position. The
/// root gains one visit for every iteration but one that stalls, which only
/// the first can do, and the tree one node for every expansion, of which
/// each iteration makes at most one.
pub proof fn lemma_search_sound<S: GameState<A, Pl>, A: GameAction, Pl: Player, Po: TreePolicy<A, Pl>>(
    node: NodeView<A, Pl>,
    game: S,
    policy: Po,
    draws: Seq<nat>,
    iterations: nat,
)
    requires
        node.wf(),
        node.consistent(game),
    ensures
        ({
            let after = search(node, game, policy, draws, iterations);
            &&& after.node.wf()
            &&& after.node.consistent(game)
            &&& after.node.action == node.action
            &&& after.node.root_player == node.root_player
            &&& after.node.visits == node.visits + iterations - (if stalls(node, game) && iterations > 0 {
                1nat
            } else {
                0nat
            })
            &&& after.node.node_count() == node.node_count() + after.expansions
            &&& after.expansions <= after.node.visits - node.visits
            &&& iterations > 0 ==> !stalls(after.node, game)
        }),
    decreases iterations,
{
    if iterations > 0 {
        let earlier = search(node, game, policy, draws, (iterations - 1) as nat);
        lemma_search_sound(node, game, policy, draws, (iterations - 1) as nat);
        lemma_iterate_sound(earlier.node, game, policy, draws.skip(earlier.draws as int));
    }
}

} // verus!
