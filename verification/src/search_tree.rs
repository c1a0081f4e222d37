//! The search tree: a root, the position it stands for and the policy that
//! guides the descent.

use crate::game::{GameAction, GameState, Player};
use crate::invariants::{lemma_search_prefix, lemma_search_sound, lemma_untried_of_leaf, stalls};
use crate::model::{is_most_visited, recommended, search, NodeView};
use crate::random::RandomSource;
use crate::search_node::{NodeState, SearchNode};
use crate::tree_policy::TreePolicy;
use vstd::prelude::*;

verus! {

/// Represents a search tree.
pub struct SearchTree<S: GameState<A, Pl>, A: GameAction, Pl: Player, Po: TreePolicy<A, Pl>> {
    /// The root node of the search tree.
    root: SearchNode<A, Pl>,
    /// The initial game state.
    root_game_state: S,
    /// The tree policy to use.
    policy: Po,
}

impl<S: GameState<A, Pl>, A: GameAction, Pl: Player, Po: TreePolicy<A, Pl>> SearchTree<S, A, Pl, Po> {
    /// The root of the tree.
    pub closed spec fn root(&self) -> NodeView<A, Pl> {
        self.root@
    }

    /// The position that the tree searches.
    pub closed spec fn position(&self) -> S {
        self.root_game_state
    }

    /// The policy that guides the descent.
    pub closed spec fn policy(&self) -> Po {
        self.policy
    }

    /// Whether the root is well formed and fitted to the position. Every
    /// tree that `new` and `run` hand out is.
    pub open spec fn wf(&self) -> bool {
        self.root().wf() && self.root().consistent(self.position())
    }

    /// The root node, to read the statistics from.
    pub fn root_node(&self) -> (node: &SearchNode<A, Pl>)
        ensures
            node@ == self.root(),
    {
        &self.root
    }

    /// A tree of one unvisited root for the position `game`, seen from the
    /// player to move there.
    pub fn new(game: S, tree_policy: Po) -> (tree: SearchTree<S, A, Pl, Po>)
        ensures
            tree.root() == NodeView::<A, Pl>::fresh(None, game.turn()),
            tree.position() == game,
            tree.policy() == tree_policy,
            tree.wf(),
    {
        let root = SearchNode {
            action: None,
            children: Vec::new(),
            root_player: game.get_turn(),
            state: NodeState::ExpandableLeaf,
            visits: 0,
            total_value: 0,
        };
        proof {
            assert(root@.children =~= Seq::empty());
            lemma_untried_of_leaf(root@, game.legal_actions());
            assert(crate::model::forest_count(root@.children) == 0);
        }
        SearchTree { root, root_game_state: game, policy: tree_policy }
    }

    /// Runs the given number of iterations, each from a copy of the
    /// initial position. The root's visit counter must have room for them.
    pub fn run(&mut self, iterations: usize, rng: &mut RandomSource)
        requires
            old(self).wf(),
            old(self).root().visits + iterations <= u32::MAX,
        ensures
            final(self).wf(),
            final(self).position() == old(self).position(),
            final(self).policy() == old(self).policy(),
            old(rng)@.is_prefix_of(final(rng)@),
            ({
                let after = search(
                    old(self).root(),
                    old(self).position(),
                    old(self).policy(),
                    final(rng)@.skip(old(rng)@.len() as int),
                    iterations as nat,
                );
                &&& final(self).root() == after.node
                &&& final(rng)@.len() == old(rng)@.len() + after.draws
                &&& final(self).root().node_count() == old(self).root().node_count() + after.expansions
            }),
            final(self).root().visits == old(self).root().visits + iterations - (if stalls(
                old(self).root(),
                old(self).position(),
            ) && iterations > 0 {
                1nat
            } else {
                0nat
            }),
            final(self).root().node_count() <= old(self).root().node_count() + iterations,
            final(self).root().grown_from(old(self).root()),
    {
        proof {
            assert(rng@.subrange(0, rng@.len() as int) =~= rng@);
        }
        let ghost start = self.root@;
        let ghost before = rng@;
        let mut done: usize = 0;
        while done < iterations
            invariant
                done <= iterations,
                self.root_game_state == old(self).root_game_state,
                self.policy == old(self).policy,
                start == old(self).root@,
                start.wf(),
                start.consistent(self.root_game_state),
                start.visits + iterations <= u32::MAX,
                before == old(rng)@,
                before.is_prefix_of(rng@),
                self.root@.wf(),
                self.root@.consistent(self.root_game_state),
                search(start, self.root_game_state, self.policy, rng@.skip(before.len() as int), done as nat)
                    == (crate::model::Progress {
                    node: self.root@,
                    draws: (rng@.len() - before.len()) as nat,
                    expansions: (self.root@.node_count() - start.node_count()) as nat,
                }),
                self.root@.node_count() >= start.node_count(),
            decreases iterations - done,
        {
            let ghost drawn = rng@;
            let ghost since = rng@.skip(before.len() as int);
            proof {
                lemma_search_sound(start, self.root_game_state, self.policy, since, done as nat);
            }
            let mut game = self.root_game_state.clone();
            proof {
                self.root_game_state.lemma_clone_is_copy(&game);
            }
            self.root.run_iteration(&mut game, &self.policy, rng);
            proof {
                let fresh = rng@.skip(drawn.len() as int);
                assert(before.is_prefix_of(rng@)) by {
                    assert(rng@.subrange(0, before.len() as int) =~= drawn.subrange(0, before.len() as int));
                }
                assert(rng@.skip(before.len() as int) =~= since + fresh);
                lemma_search_prefix(start, self.root_game_state, self.policy, since, fresh, done as nat);
                assert((since + fresh).skip(since.len() as int) =~= fresh);
                crate::invariants::lemma_iterate_sound(
                    search(start, self.root_game_state, self.policy, since, done as nat).node,
                    self.root_game_state,
                    self.policy,
                    fresh,
                );
            }
            done += 1;
        }
        proof {
            lemma_search_sound(
                start,
                self.root_game_state,
                self.policy,
                rng@.skip(before.len() as int),
                iterations as nat,
            );
            crate::theorems::lemma_search_grows(
                start,
                self.root_game_state,
                self.policy,
                rng@.skip(before.len() as int),
                iterations as nat,
            );
        }
    }

    /// Returns the action of the root's most visited child, the first of
    /// them where several are visited as often, and `None` where the root
    /// has no child.
    pub fn get_best_action(&mut self) -> (best: Option<A>)
        requires
            old(self).wf(),
        ensures
            final(self).root() == old(self).root(),
            final(self).position() == old(self).position(),
            final(self).policy() == old(self).policy(),
            best == recommended(old(self).root()),
            best is None <==> old(self).root().children.len() == 0,
    {
        proof {
            self.root.lemma_view_children();
        }
        if self.root.children.len() == 0 {
            return None;
        }
        let mut best: usize = 0;
        let mut i: usize = 1;
        while i < self.root.children.len()
            invariant
                *self == *old(self),
                self.root@.children.len() == self.root.children.len(),
                forall|j: int|
                    0 <= j < self.root.children.len() ==> #[trigger] self.root@.children[j]
                        == self.root.children[j]@,
                best < i <= self.root.children.len(),
                forall|j: int| 0 <= j < i ==> (#[trigger] self.root@.children[j]).visits <= self.root@.children[best as int].visits,
                forall|j: int| 0 <= j < best ==> (#[trigger] self.root@.children[j]).visits < self.root@.children[best as int].visits,
            decreases self.root.children.len() - i,
        {
            if self.root.children[i].visits > self.root.children[best].visits {
                best = i;
            }
            i += 1;
        }
        proof {
            let node = self.root@;
            assert(is_most_visited(node, best as int));
            let k = choose|k: int| is_most_visited(node, k);
            assert(is_most_visited(node, k));
            if k < best {
                assert(node.children[k].visits < node.children[best as int].visits);
            }
            if best < k {
                assert(node.children[best as int].visits < node.children[k].visits);
            }
            assert(node.children[best as int].action is Some);
        }
        self.root.children[best].action
    }
}

} // verus!
