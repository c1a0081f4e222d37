//! The mathematical model of the search tree and of one search iteration.
//!
//! Every random choice of the engine is an index drawn from a
//! [`RandomSource`](crate::random::RandomSource). The model takes the drawn
//! indices as a sequence, which makes one iteration a function of the tree,
//! the position, the policy and the draws.

use crate::game::{GameAction, GameState, Player};
use crate::search_node::NodeState;
use crate::tree_policy::TreePolicy;
use vstd::prelude::*;

verus! {

/// A search node as a mathematical value: the children are a sequence, the
/// counters are unbounded.
#[verifier::ext_equal]
pub struct NodeView<A, Pl> {
    pub action: Option<A>,
    pub children: Seq<NodeView<A, Pl>>,
    pub root_player: Pl,
    pub state: NodeState,
    pub visits: nat,
    pub total_value: int,
}

/// What one iteration leaves behind.
#[verifier::ext_equal]
pub struct Outcome<S, A, Pl> {
    /// The node after the iteration.
    pub node: NodeView<A, Pl>,
    /// The terminal position at which the iteration ended.
    pub end: S,
    /// The reward of `end` for the root player.
    pub reward: int,
    /// How many draws the iteration consumed.
    pub draws: nat,
    /// Whether the iteration added a node to the tree.
    pub expanded: bool,
}

/// The index that the first of `draws` selects among `options` options. A
/// missing or out-of-range draw selects the first option.
pub open spec fn pick(draws: Seq<nat>, options: nat) -> int {
    if draws.len() > 0 && draws[0] < options {
        draws[0] as int
    } else {
        0
    }
}

/// The number of nodes in a sequence of trees.
pub open spec fn forest_count<A, Pl>(forest: Seq<NodeView<A, Pl>>) -> nat
    decreases forest, 0nat,
{
    if forest.len() == 0 {
        0
    } else {
        forest_count(forest.drop_last()) + forest.last().node_count()
    }
}

/// Whether `total_value` can be the sum of `visits` rewards.
pub open spec fn value_bounded(visits: nat, total_value: int) -> bool {
    -0x8000_0000 * visits <= total_value <= 0x7fff_ffff * visits
}

impl<A, Pl> NodeView<A, Pl> {
    /// A node without children or statistics.
    pub open spec fn fresh(action: Option<A>, root_player: Pl) -> Self {
        NodeView {
            action,
            children: Seq::empty(),
            root_player,
            state: NodeState::ExpandableLeaf,
            visits: 0,
            total_value: 0,
        }
    }

    /// The number of nodes of the tree rooted here.
    pub open spec fn node_count(self) -> nat
        decreases self, 1nat,
    {
        1 + forest_count(self.children)
    }

    /// Whether some child stands for `action`.
    pub open spec fn has_child_for(self, action: A) -> bool {
        exists|i: int| 0 <= i < self.children.len() && (#[trigger] self.children[i]).action == Some(action)
    }

    /// Those of `actions` that no child stands for yet, in their order.
    pub open spec fn untried(self, actions: Seq<A>) -> Seq<A> {
        actions.filter(|a: A| !self.has_child_for(a))
    }

    /// Whether the children stand for pairwise different actions.
    pub open spec fn distinct_children(self) -> bool {
        forall|i: int, j: int|
            0 <= i < j < self.children.len() ==> (#[trigger] self.children[i]).action != (#[trigger] self.children[j]).action
    }

    /// The node after one more simulation with the given reward passed
    /// through it.
    pub open spec fn credited(self, reward: int) -> Self {
        NodeView { visits: self.visits + 1, total_value: self.total_value + reward, ..self }
    }

    /// The structural invariant of a search tree, whatever the game.
    pub open spec fn wf(self) -> bool
        decreases self,
    {
        &&& value_bounded(self.visits, self.total_value)
        &&& self.node_count() <= self.visits + 1
        &&& (self.state is TerminalLeaf ==> self.children.len() == 0)
        &&& (self.state is Expanded ==> self.children.len() > 0)
        &&& forall|i: int|
            0 <= i < self.children.len() ==> {
                &&& (#[trigger] self.children[i]).action is Some
                &&& self.children[i].root_player == self.root_player
                &&& self.children[i].visits <= self.visits
                &&& self.children[i].wf()
            }
    }

    /// How many draws an expansion at a position offering `actions` takes:
    /// none when a single action is left to try.
    pub open spec fn expansion_draws(self, actions: Seq<A>) -> nat {
        if actions.len() == 0 || self.untried(actions).len() == 1 {
            0
        } else {
            1
        }
    }

    /// The node after an expansion at a position offering `actions`. With
    /// no action the node becomes a terminal leaf. Else one untried action
    /// gets a child, chosen by the first draw unless it is the only one, in
    /// which case the node counts as expanded from then on.
    pub open spec fn expanded_with(self, actions: Seq<A>, draws: Seq<nat>) -> Self {
        let candidates = self.untried(actions);
        if actions.len() == 0 {
            NodeView { state: NodeState::TerminalLeaf, ..self }
        } else if candidates.len() == 1 {
            NodeView {
                children: self.children.push(Self::fresh(Some(candidates[0]), self.root_player)),
                state: NodeState::Expanded,
                ..self
            }
        } else {
            NodeView {
                children: self.children.push(
                    Self::fresh(Some(candidates[pick(draws, candidates.len())]), self.root_player),
                ),
                ..self
            }
        }
    }
}

impl<A: GameAction, Pl: Player> NodeView<A, Pl> {
    /// Whether the tree rooted here fits the position `game`: the children
    /// stand for different legal actions, every legal action is either
    /// tried or untried, a leaf that can still be expanded has an action
    /// left to try, a terminal leaf sits at a terminal position, an expanded
    /// node has a child for every action, and each child fits the position
    /// its action leads to.
    pub open spec fn consistent<S: GameState<A, Pl>>(self, game: S) -> bool
        decreases self,
    {
        let actions = game.legal_actions();
        &&& self.distinct_children()
        &&& self.children.len() + self.untried(actions).len() == actions.len()
        &&& match self.state {
            NodeState::ExpandableLeaf => self.children.len() < actions.len() || (actions.len() == 0
                && self.children.len() == 0),
            NodeState::TerminalLeaf => actions.len() == 0,
            NodeState::Expanded => self.children.len() == actions.len(),
        }
        &&& forall|i: int|
            0 <= i < self.children.len() ==> {
                &&& (#[trigger] self.children[i]).action is Some
                &&& actions.contains(self.children[i].action.unwrap())
                &&& self.children[i].consistent(game.successor(self.children[i].action.unwrap()))
            }
    }
}

/// The terminal position that a playout from `game` reaches when the draws
/// select the moves, and the number of draws it takes.
pub open spec fn playout<S: GameState<A, Pl>, A: GameAction, Pl: Player>(game: S, draws: Seq<nat>) -> (S, nat)
    decreases game.plies_left(),
{
    let actions = game.legal_actions();
    if actions.len() == 0 {
        (game, 0)
    } else {
        let action = actions[pick(draws, actions.len())];
        proof {
            game.lemma_successor_closer(action);
        }
        let rest = playout(game.successor(action), draws.skip(1));
        (rest.0, rest.1 + 1)
    }
}

/// One iteration of the search at `node`, which sits at position `game`.
pub open spec fn iterate<S: GameState<A, Pl>, A: GameAction, Pl: Player, Po: TreePolicy<A, Pl>>(
    node: NodeView<A, Pl>,
    game: S,
    policy: Po,
    draws: Seq<nat>,
) -> Outcome<S, A, Pl>
    decreases node,
{
    match node.state {
        NodeState::TerminalLeaf => {
            let reward = game.reward(node.root_player);
            Outcome { node: node.credited(reward), end: game, reward, draws: 0, expanded: false }
        },
        NodeState::ExpandableLeaf => {
            let actions = game.legal_actions();
            let grown = node.expanded_with(actions, draws);
            if actions.len() == 0 {
                Outcome {
                    node: grown,
                    end: game,
                    reward: game.reward(node.root_player),
                    draws: 0,
                    expanded: false,
                }
            } else {
                let first = node.expansion_draws(actions);
                let child = grown.children.last();
                let rollout = playout(game.successor(child.action.unwrap()), draws.skip(first as int));
                let reward = rollout.0.reward(node.root_player);
                Outcome {
                    node: NodeView {
                        children: node.children.push(child.credited(reward)),
                        ..grown
                    }.credited(reward),
                    end: rollout.0,
                    reward,
                    draws: first + rollout.1,
                    expanded: true,
                }
            }
        },
        NodeState::Expanded => {
            let i = policy.choice(node, game.turn() == node.root_player) as int;
            if i < node.children.len() {
                let child = node.children[i];
                let below = iterate(child, game.successor(child.action.unwrap()), policy, draws);
                Outcome {
                    node: NodeView {
                        children: node.children.update(i, below.node),
                        ..node
                    }.credited(below.reward),
                    ..below
                }
            } else {
                Outcome { node, end: game, reward: 0, draws: 0, expanded: false }
            }
        },
    }
}

/// What a number of iterations leave behind.
#[verifier::ext_equal]
pub struct Progress<A, Pl> {
    /// The root after the iterations.
    pub node: NodeView<A, Pl>,
    /// How many draws the iterations consumed.
    pub draws: nat,
    /// How many of the iterations added a node to the tree.
    pub expansions: nat,
}

/// The given number of iterations from the root `node`, each starting at
/// the position `game` and taking its draws where the one before stopped.
pub open spec fn search<S: GameState<A, Pl>, A: GameAction, Pl: Player, Po: TreePolicy<A, Pl>>(
    node: NodeView<A, Pl>,
    game: S,
    policy: Po,
    draws: Seq<nat>,
    iterations: nat,
) -> Progress<A, Pl>
    decreases iterations,
{
    if iterations == 0 {
        Progress { node, draws: 0, expansions: 0 }
    } else {
        let earlier = search(node, game, policy, draws, (iterations - 1) as nat);
        let last = iterate(earlier.node, game, policy, draws.skip(earlier.draws as int));
        Progress {
            node: last.node,
            draws: earlier.draws + last.draws,
            expansions: earlier.expansions + if last.expanded {
                1nat
            } else {
                0nat
            },
        }
    }
}

/// Whether child `i` of `node` is the first of the children with the most
/// visits.
pub open spec fn is_most_visited<A, Pl>(node: NodeView<A, Pl>, i: int) -> bool {
    &&& 0 <= i < node.children.len()
    &&& forall|j: int| 0 <= j < node.children.len() ==> (#[trigger] node.children[j]).visits <= node.children[i].visits
    &&& forall|j: int| 0 <= j < i ==> (#[trigger] node.children[j]).visits < node.children[i].visits
}

/// The action to recommend at `node`: that of the first child with the
/// most visits, and none where there is no child.
pub open spec fn recommended<A, Pl>(node: NodeView<A, Pl>) -> Option<A> {
    if node.children.len() == 0 {
        None
    } else {
        node.children[choose|i: int| is_most_visited(node, i)].action
    }
}

} // verus!
