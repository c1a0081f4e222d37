//! The nodes of the search tree and the four phases of an iteration.

use crate::game::{GameAction, GameState, Player};
use crate::invariants::{lemma_filter_subset, lemma_iterate_sound, stalls};
use crate::model::{forest_count, iterate, playout, NodeView};
use crate::random::RandomSource;
use crate::theorems::lemma_iterate_grows;
use crate::tree_policy::{lemma_wf_selectable, TreePolicy};
use vstd::prelude::*;

verus! {

/// Represents the state of a node in the search tree.
#[derive(Copy, Clone, Debug, PartialEq, Eq, Structural)]
pub enum NodeState {
    /// Not every action has a child yet, as far as is known.
    ExpandableLeaf,
    /// No children, no available actions.
    TerminalLeaf,
    /// Every action has a child.
    Expanded,
}

/// A node of the search tree. It owns its subtree.
pub struct SearchNode<A: GameAction, Pl: Player> {
    /// The action that this node represents. Only `None` for the root node.
    pub action: Option<A>,
    /// The children of this node, in the order they were added.
    pub children: Vec<SearchNode<A, Pl>>,
    /// The player whose turn it was at the root node.
    pub root_player: Pl,
    /// The state of this node.
    pub state: NodeState,
    /// The number of times this node has been visited.
    pub visits: u32,
    /// The sum of the rewards of the simulations that passed through here.
    pub total_value: i64,
}

impl<A: GameAction, Pl: Player> SearchNode<A, Pl> {
    /// The node as a mathematical value.
    pub open spec fn model(self) -> NodeView<A, Pl>
        decreases self,
    {
        NodeView {
            action: self.action,
            children: Seq::new(
                self.children.len() as nat,
                |i: int|
                    if 0 <= i < self.children.len() {
                        self.children[i].model()
                    } else {
                        arbitrary()
                    },
            ),
            root_player: self.root_player,
            state: self.state,
            visits: self.visits as nat,
            total_value: self.total_value as int,
        }
    }
}

impl<A: GameAction, Pl: Player> View for SearchNode<A, Pl> {
    type V = NodeView<A, Pl>;

    open spec fn view(&self) -> NodeView<A, Pl> {
        self.model()
    }
}

/// Whether `action` occurs in `actions`.
fn contains_action<A: GameAction>(actions: &Vec<A>, action: A) -> (found: bool)
    ensures
        found == actions@.contains(action),
{
    let mut i: usize = 0;
    while i < actions.len()
        invariant
            i <= actions.len(),
            forall|j: int| 0 <= j < i ==> actions@[j] != action,
        decreases actions.len() - i,
    {
        proof {
            A::lemma_eq_is_equality(actions@[i as int], action);
        }
        if actions[i] == action {
            return true;
        }
        i += 1;
    }
    false
}

/// Plays uniformly random moves from `game` until no move is left.
fn rollout<S: GameState<A, Pl>, A: GameAction, Pl: Player>(game: &mut S, rng: &mut RandomSource)
    ensures
        old(rng)@.is_prefix_of(final(rng)@),
        playout(*old(game), final(rng)@.skip(old(rng)@.len() as int)) == (
            *final(game),
            (final(rng)@.len() - old(rng)@.len()) as nat,
        ),
        final(game).legal_actions().len() == 0,
{
    let ghost start = *game;
    let ghost before = rng@;
    let mut available = game.get_actions();
    proof {
        assert forall|rest: Seq<nat>| #[trigger]
            playout(start, rng@.skip(before.len() as int) + rest) == (
                playout(*game, rest).0,
                (playout(*game, rest).1 + rng@.len() - before.len()) as nat,
            ) by {
            assert(rng@.skip(before.len() as int) + rest =~= rest);
        }
    }
    while available.len() > 0
        invariant
            available@ == game.legal_actions(),
            before.is_prefix_of(rng@),
            forall|rest: Seq<nat>| #[trigger]
                playout(start, rng@.skip(before.len() as int) + rest) == (
                    playout(*game, rest).0,
                    (playout(*game, rest).1 + rng@.len() - before.len()) as nat,
                ),
        decreases game.plies_left(),
    {
        let ghost here = *game;
        let ghost drawn = rng@;
        let i = rng.next_below(available.len());
        let action = available[i];
        proof {
            here.lemma_successor_closer(action);
        }
        game.apply_action(&action);
        available = game.get_actions();
        proof {
            assert(before.is_prefix_of(rng@)) by {
                assert(rng@.subrange(0, before.len() as int) =~= drawn.subrange(0, before.len() as int));
            }
            assert forall|rest: Seq<nat>| #[trigger]
                playout(start, rng@.skip(before.len() as int) + rest) == (
                    playout(*game, rest).0,
                    (playout(*game, rest).1 + rng@.len() - before.len()) as nat,
                ) by {
                let step = seq![i as nat] + rest;
                assert(rng@.skip(before.len() as int) + rest =~= drawn.skip(before.len() as int) + step);
                assert(step.skip(1) =~= rest);
                assert(playout(here, step) == (playout(*game, rest).0, playout(*game, rest).1 + 1));
            }
        }
    }
    proof {
        let rest = Seq::<nat>::empty();
        assert(rng@.skip(before.len() as int) + rest =~= rng@.skip(before.len() as int));
        assert(playout(start, rng@.skip(before.len() as int) + rest) == (
            playout(*game, rest).0,
            (playout(*game, rest).1 + rng@.len() - before.len()) as nat,
        ));
    }
}

impl<A: GameAction, Pl: Player> SearchNode<A, Pl> {
    /// What the view of a node says of its children.
    pub proof fn lemma_view_children(self)
        ensures
            self@.children.len() == self.children.len(),
            forall|i: int| 0 <= i < self.children.len() ==> #[trigger] self@.children[i] == self.children[i]@,
    {
    }

    /// Constructs a new search node with the given action and root player.
    pub fn new(action: Option<A>, root_player: Pl) -> (node: SearchNode<A, Pl>)
        ensures
            node@ == NodeView::fresh(action, root_player),
    {
        let node = SearchNode {
            action,
            children: Vec::new(),
            root_player,
            state: NodeState::ExpandableLeaf,
            visits: 0,
            total_value: 0,
        };
        proof {
            assert(node@.children =~= Seq::empty());
        }
        node
    }

    /// Adds a child for one untried action, chosen at random, and returns
    /// it. The node is marked `Expanded` when that was the last untried
    /// action, and `TerminalLeaf`, without a child, when the position has
    /// no action at all.
    pub fn expand<S: GameState<A, Pl>>(&mut self, game: &S, rng: &mut RandomSource) -> (child: Option<
        &mut SearchNode<A, Pl>,
    >)
        requires
            forall|i: int|
                0 <= i < old(self)@.children.len() ==> (#[trigger] old(self)@.children[i]).action is Some,
            game.legal_actions().len() > 0 ==> old(self)@.untried(game.legal_actions()).len() > 0,
        ensures
            old(rng)@.is_prefix_of(final(rng)@),
            final(rng)@.len() == old(rng)@.len() + old(self)@.expansion_draws(game.legal_actions()),
            match child {
                None => game.legal_actions().len() == 0,
                Some(added) => game.legal_actions().len() > 0 && added@ == old(self)@.expanded_with(
                    game.legal_actions(),
                    final(rng)@.skip(old(rng)@.len() as int),
                ).children.last(),
            },
            final(self)@ == (NodeView {
                children: match child {
                    None => old(self)@.children,
                    Some(added) => old(self)@.children.push(final(added)@),
                },
                ..old(self)@.expanded_with(game.legal_actions(), final(rng)@.skip(old(rng)@.len() as int))
            }),
    {
        let ghost before = *self;
        let ghost drawn = rng@;
        let ghost untried = |a: A| !before@.has_child_for(a);
        let allowed_actions = game.get_actions();
        if allowed_actions.len() == 0 {
            self.state = NodeState::TerminalLeaf;
            proof {
                assert(rng@.subrange(0, drawn.len() as int) =~= drawn);
                assert(self@.children =~= before@.children);
            }
            return None;
        }
        let mut child_actions: Vec<A> = Vec::new();
        let mut i: usize = 0;
        while i < self.children.len()
            invariant
                *self == before,
                i <= self.children.len(),
                child_actions@.len() == i,
                forall|j: int| 0 <= j < self@.children.len() ==> (#[trigger] self@.children[j]).action is Some,
                forall|j: int| 0 <= j < i ==> child_actions@[j] == (#[trigger] self@.children[j]).action.unwrap(),
            decreases self.children.len() - i,
        {
            proof {
                self.lemma_view_children();
                assert(self@.children[i as int].action is Some);
            }
            child_actions.push(self.children[i].action.unwrap());
            i += 1;
        }
        proof {
            assert forall|a: A| child_actions@.contains(a) == before@.has_child_for(a) by {
                if child_actions@.contains(a) {
                    let j = choose|j: int| 0 <= j < child_actions@.len() && child_actions@[j] == a;
                    assert(before@.children[j].action == Some(a));
                }
                if before@.has_child_for(a) {
                    let j = choose|j: int|
                        0 <= j < before@.children.len() && (#[trigger] before@.children[j]).action == Some(a);
                    assert(child_actions@[j] == a);
                }
            }
        }
        let mut candidate_actions: Vec<A> = Vec::new();
        let mut k: usize = 0;
        proof {
            reveal(Seq::filter);
            assert(allowed_actions@.take(0).filter(untried) =~= Seq::<A>::empty());
        }
        while k < allowed_actions.len()
            invariant
                k <= allowed_actions.len(),
                forall|a: A| child_actions@.contains(a) == before@.has_child_for(a),
                untried == |a: A| !before@.has_child_for(a),
                candidate_actions@ == allowed_actions@.take(k as int).filter(untried),
            decreases allowed_actions.len() - k,
        {
            let action = allowed_actions[k];
            proof {
                assert(allowed_actions@.take(k + 1) =~= allowed_actions@.take(k as int).push(action));
                allowed_actions@.take(k as int).lemma_filter_push(action, untried);
            }
            if !contains_action(&child_actions, action) {
                candidate_actions.push(action);
            }
            k += 1;
        }
        proof {
            assert(allowed_actions@.take(allowed_actions@.len() as int) =~= allowed_actions@);
            assert(candidate_actions@ == before@.untried(game.legal_actions()));
        }
        if candidate_actions.len() == 1 {
            self.children.push(SearchNode::new(Some(candidate_actions[0]), self.root_player));
            self.state = NodeState::Expanded;
            proof {
                assert(rng@.subrange(0, drawn.len() as int) =~= drawn);
            }
        } else {
            let rand_action = candidate_actions[rng.next_below(candidate_actions.len())];
            let node = SearchNode::new(Some(rand_action), self.root_player);
            self.children.push(node);
            proof {
                assert(rng@.subrange(0, drawn.len() as int) =~= drawn);
                assert(rng@.skip(drawn.len() as int)[0] == rng@[drawn.len() as int]);
            }
        }
        let last = self.children.len() - 1;
        let ghost grown = *self;
        proof {
            grown.lemma_view_children();
            before.lemma_view_children();
            assert(grown@.children =~= before@.children.push(grown.children[last as int]@));
            assert(grown@ == before@.expanded_with(game.legal_actions(), rng@.skip(drawn.len() as int)));
            assert forall|end: SearchNode<A, Pl>, added: SearchNode<A, Pl>|
                end.children@ == grown.children@.update(last as int, added) && end.action == grown.action
                    && end.root_player == grown.root_player && end.state == grown.state && end.visits
                    == grown.visits && end.total_value == grown.total_value implies #[trigger] end.model()
                == (NodeView { children: before@.children.push(#[trigger] added.model()), ..grown@ }) by {
                end.lemma_view_children();
                assert(end@.children =~= before@.children.push(added@));
            }
        }
        Some(&mut self.children[last])
    }

    /// Runs a single iteration of the search from this node, which sits at
    /// position `game`, and returns the reward for the root player. The
    /// game is left at the terminal position that the iteration reached.
    pub fn run_iteration<S: GameState<A, Pl>, Po: TreePolicy<A, Pl>>(
        &mut self,
        game: &mut S,
        tree_policy: &Po,
        rng: &mut RandomSource,
    ) -> (reward: i32)
        requires
            old(self)@.wf(),
            old(self)@.consistent(*old(game)),
            old(self).visits < u32::MAX,
        ensures
            old(rng)@.is_prefix_of(final(rng)@),
            ({
                let after = iterate(
                    old(self)@,
                    *old(game),
                    *tree_policy,
                    final(rng)@.skip(old(rng)@.len() as int),
                );
                &&& final(self)@ == after.node
                &&& *final(game) == after.end
                &&& reward == after.reward
                &&& final(rng)@.len() == old(rng)@.len() + after.draws
            }),
            final(self)@.wf(),
            final(self)@.consistent(*old(game)),
            final(game).legal_actions().len() == 0,
            reward == final(game).reward(old(self).root_player),
            final(self).visits == old(self).visits + (if stalls(old(self)@, *old(game)) {
                0nat
            } else {
                1nat
            }),
            old(self)@.node_count() <= final(self)@.node_count() <= old(self)@.node_count() + 1,
            final(self)@.grown_from(old(self)@),
        decreases *old(self),
    {
        let ghost before = *self;
        let ghost start = *game;
        let ghost drawn = rng@;
        proof {
            before.lemma_view_children();
            assert(drawn.subrange(0, drawn.len() as int) =~= drawn);
            assert(drawn.skip(drawn.len() as int) =~= Seq::<nat>::empty());
        }
        let delta = match self.state {
            NodeState::ExpandableLeaf => {
                let root_player = self.root_player;
                match self.expand(game, rng) {
                    Some(best_child) => {
                        let ghost mid = rng@;
                        let ghost candidates = before@.untried(start.legal_actions());
                        proof {
                            let k = if candidates.len() == 1 {
                                0
                            } else {
                                crate::model::pick(mid.skip(drawn.len() as int), candidates.len())
                            };
                            lemma_filter_subset(
                                start.legal_actions(),
                                |a: A| !before@.has_child_for(a),
                                k,
                            );
                        }
                        game.apply_action(&best_child.action.unwrap());
                        rollout(game, rng);
                        let reward = game.get_reward_for_player(root_player);
                        best_child.visits += 1;
                        best_child.total_value += reward as i64;
                        proof {
                            let since = rng@.skip(drawn.len() as int);
                            let first = before@.expansion_draws(start.legal_actions());
                            assert(drawn.is_prefix_of(rng@)) by {
                                assert(rng@.subrange(0, drawn.len() as int) =~= mid.subrange(
                                    0,
                                    drawn.len() as int,
                                ));
                            }
                            assert(since.skip(first as int) =~= rng@.skip(mid.len() as int));
                            if first == 1 {
                                assert(since[0] == mid.skip(drawn.len() as int)[0]);
                            }
                            assert(before@.expanded_with(start.legal_actions(), since)
                                == before@.expanded_with(
                                start.legal_actions(),
                                mid.skip(drawn.len() as int),
                            ));
                            assert(best_child@.children =~= Seq::empty());
                        }
                        reward
                    },
                    None => {
                        let reward = game.get_reward_for_player(root_player);
                        proof {
                            lemma_iterate_sound(
                                before@,
                                start,
                                *tree_policy,
                                rng@.skip(drawn.len() as int),
                            );
                            lemma_iterate_grows(
                                before@,
                                start,
                                *tree_policy,
                                rng@.skip(drawn.len() as int),
                            );
                        }
                        return reward;
                    },
                }
            },
            NodeState::TerminalLeaf => { game.get_reward_for_player(self.root_player) },
            NodeState::Expanded => {
                proof {
                    Pl::lemma_eq_is_equality(start.turn(), before.root_player);
                    lemma_wf_selectable(before@);
                }
                let is_root_player_turn = game.get_turn() == self.root_player;
                let child = tree_policy.select_child(self, is_root_player_turn);
                game.apply_action(&child.action.unwrap());
                child.run_iteration(game, tree_policy, rng)
            },
        };
        self.visits += 1;
        self.total_value += delta as i64;
        proof {
            let since = rng@.skip(drawn.len() as int);
            let after = iterate(before@, start, *tree_policy, since);
            self.lemma_view_children();
            assert(self@.children =~= after.node.children);
            lemma_iterate_sound(before@, start, *tree_policy, since);
            lemma_iterate_grows(before@, start, *tree_policy, since);
        }
        delta
    }

    /// The number of nodes of the tree rooted here, which must fit in the
    /// result.
    pub fn get_node_count(&self) -> (count: u32)
        requires
            self@.node_count() <= u32::MAX,
        ensures
            count == self@.node_count(),
        decreases *self,
    {
        let mut count: u32 = 1;
        let mut i: usize = 0;
        proof {
            self.lemma_view_children();
            assert(self@.children.take(0) =~= Seq::empty());
        }
        while i < self.children.len()
            invariant
                i <= self.children.len(),
                self@.children.len() == self.children.len(),
                forall|j: int| 0 <= j < self.children.len() ==> #[trigger] self@.children[j] == self.children[j]@,
                count == 1 + forest_count(self@.children.take(i as int)),
                self@.node_count() <= u32::MAX,
            decreases self.children.len() - i,
        {
            proof {
                lemma_forest_prefix(self@.children, i as int + 1);
                assert(self@.children.take(i + 1).drop_last() =~= self@.children.take(i as int));
            }
            count += self.children[i].get_node_count();
            i += 1;
        }
        proof {
            assert(self@.children.take(self.children.len() as int) =~= self@.children);
        }
        count
    }
}

/// A prefix of a forest has no more nodes than the forest.
proof fn lemma_forest_prefix<A, Pl>(forest: Seq<NodeView<A, Pl>>, n: int)
    requires
        0 <= n <= forest.len(),
    ensures
        forest_count(forest.take(n)) <= forest_count(forest),
    decreases forest.len(),
{
    if n == forest.len() {
        assert(forest.take(n) =~= forest);
    } else {
        lemma_forest_prefix(forest.drop_last(), n);
        assert(forest.drop_last().take(n) =~= forest.take(n));
    }
}

} // verus!
