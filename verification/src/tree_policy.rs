//! The strategy that picks the child to descend into, and the selection
//! that a policy built on scores makes.

use crate::game::{GameAction, Player};
use crate::model::NodeView;
use crate::search_node::SearchNode;
use vstd::prelude::*;

verus! {

/// Whether child `i` of `node` is the first child without a visit.
pub open spec fn is_first_unvisited<A, Pl>(node: NodeView<A, Pl>, i: int) -> bool {
    &&& 0 <= i < node.children.len()
    &&& node.children[i].visits == 0
    &&& forall|j: int| 0 <= j < i ==> (#[trigger] node.children[j]).visits != 0
}

/// Whether a policy can be asked at `node`: it has a child, and it was
/// visited itself unless one of its children was never visited.
pub open spec fn selectable<A, Pl>(node: NodeView<A, Pl>) -> bool {
    &&& node.children.len() > 0
    &&& (node.visits > 0 || exists|i: int| is_first_unvisited(node, i))
}

/// A trait that defines a tree policy.
pub trait TreePolicy<A: GameAction, Pl: Player>: Sized {
    /// The index of the child that the policy picks at `node`.
    spec fn choice(&self, node: NodeView<A, Pl>, is_root_player_turn: bool) -> usize;

    /// The policy picks one of the children.
    proof fn lemma_choice_in_range(&self, node: NodeView<A, Pl>, is_root_player_turn: bool)
        requires
            node.children.len() > 0,
        ensures
            self.choice(node, is_root_player_turn) < node.children.len(),
    ;

    /// Selects a child node to explore. The node must have a child, and a
    /// visit of its own unless a child was never visited.
    fn select_child<'a>(&self, node: &'a mut SearchNode<A, Pl>, is_root_player_turn: bool) -> (child:
        &'a mut SearchNode<A, Pl>)
        requires
            selectable(old(node)@),
        ensures
            ({
                let i = self.choice(old(node)@, is_root_player_turn) as int;
                &&& i < old(node).children.len()
                &&& *child == old(node).children[i]
                &&& final(node).children@ == old(node).children@.update(i, *final(child))
                &&& final(node).action == old(node).action
                &&& final(node).root_player == old(node).root_player
                &&& final(node).state == old(node).state
                &&& final(node).visits == old(node).visits
                &&& final(node).total_value == old(node).total_value
            }),
    ;
}

/// Whether entry `i` is the first of the first `n` scores that is at least
/// as good as each of them: as high where `maximize` holds, as low where it
/// does not.
pub open spec fn is_first_best(scores: Seq<i64>, i: int, n: int, maximize: bool) -> bool {
    &&& 0 <= i < n <= scores.len()
    &&& forall|j: int|
        0 <= j < n ==> if maximize {
            #[trigger] scores[j] <= scores[i]
        } else {
            scores[j] >= scores[i]
        }
    &&& forall|j: int|
        0 <= j < i ==> if maximize {
            #[trigger] scores[j] < scores[i]
        } else {
            scores[j] > scores[i]
        }
}

/// The child that a policy built on scores selects, where `scores[i]` is
/// the score of child `i`: the first child that was never visited, and
/// where every child was visited, the first of the children with the
/// highest score if the root player is to move, and with the lowest score
/// if another player is.
pub open spec fn selection<A, Pl>(node: NodeView<A, Pl>, scores: Seq<i64>, is_root_player_turn: bool) -> int {
    if exists|i: int| is_first_unvisited(node, i) {
        choose|i: int| is_first_unvisited(node, i)
    } else {
        choose|i: int| is_first_best(scores, i, scores.len() as int, is_root_player_turn)
    }
}

/// A first unvisited child is the selection.
pub proof fn lemma_unvisited_selected<A, Pl>(
    node: NodeView<A, Pl>,
    scores: Seq<i64>,
    i: int,
    is_root_player_turn: bool,
)
    requires
        is_first_unvisited(node, i),
    ensures
        selection(node, scores, is_root_player_turn) == i,
{
    let k = choose|k: int| is_first_unvisited(node, k);
    assert(is_first_unvisited(node, k));
    if k < i {
        assert(node.children[k].visits != 0);
    }
    if i < k {
        assert(node.children[i].visits != 0);
    }
}

/// Where every child was visited, the first best child is the selection.
pub proof fn lemma_best_selected<A, Pl>(
    node: NodeView<A, Pl>,
    scores: Seq<i64>,
    i: int,
    is_root_player_turn: bool,
)
    requires
        forall|j: int| 0 <= j < node.children.len() ==> (#[trigger] node.children[j]).visits != 0,
        is_first_best(scores, i, scores.len() as int, is_root_player_turn),
    ensures
        selection(node, scores, is_root_player_turn) == i,
{
    assert forall|k: int| !is_first_unvisited(node, k) by {
        if is_first_unvisited(node, k) {
            assert(node.children[k].visits != 0);
        }
    }
    let n = scores.len() as int;
    let k = choose|k: int| is_first_best(scores, k, n, is_root_player_turn);
    assert(is_first_best(scores, k, n, is_root_player_turn));
    if k < i {
        assert(if is_root_player_turn {
            scores[k] < scores[i]
        } else {
            scores[k] > scores[i]
        });
        assert(if is_root_player_turn {
            scores[i] <= scores[k]
        } else {
            scores[i] >= scores[k]
        });
    }
    if i < k {
        assert(if is_root_player_turn {
            scores[i] < scores[k]
        } else {
            scores[i] > scores[k]
        });
        assert(if is_root_player_turn {
            scores[k] <= scores[i]
        } else {
            scores[k] >= scores[i]
        });
    }
}

/// Among any first `n >= 1` scores one is the first best.
pub proof fn lemma_best_exists(scores: Seq<i64>, n: int, maximize: bool) -> (i: int)
    requires
        1 <= n <= scores.len(),
    ensures
        is_first_best(scores, i, n, maximize),
    decreases n,
{
    if n == 1 {
        0
    } else {
        let before = lemma_best_exists(scores, n - 1, maximize);
        let better = if maximize {
            scores[n - 1] > scores[before]
        } else {
            scores[n - 1] < scores[before]
        };
        if better {
            assert forall|j: int| 0 <= j < n implies if maximize {
                #[trigger] scores[j] <= scores[n - 1]
            } else {
                scores[j] >= scores[n - 1]
            } by {
                if j < n - 1 {
                    assert(if maximize {
                        scores[j] <= scores[before]
                    } else {
                        scores[j] >= scores[before]
                    });
                }
            }
            assert forall|j: int| 0 <= j < n - 1 implies if maximize {
                #[trigger] scores[j] < scores[n - 1]
            } else {
                scores[j] > scores[n - 1]
            } by {
                assert(if maximize {
                    scores[j] <= scores[before]
                } else {
                    scores[j] >= scores[before]
                });
            }
            n - 1
        } else {
            before
        }
    }
}

/// The selection is one of the children, where each has a score.
pub proof fn lemma_selection_in_range<A, Pl>(
    node: NodeView<A, Pl>,
    scores: Seq<i64>,
    is_root_player_turn: bool,
)
    requires
        node.children.len() > 0,
        scores.len() == node.children.len(),
    ensures
        0 <= selection(node, scores, is_root_player_turn) < node.children.len(),
{
    if exists|i: int| is_first_unvisited(node, i) {
        let i = choose|i: int| is_first_unvisited(node, i);
        assert(is_first_unvisited(node, i));
    } else {
        let n = scores.len() as int;
        let i = lemma_best_exists(scores, n, is_root_player_turn);
        let k = choose|k: int| is_first_best(scores, k, n, is_root_player_turn);
        assert(is_first_best(scores, k, n, is_root_player_turn));
    }
}

/// Selects the child of `node` that a policy built on scores explores,
/// where `scores[i]` is the score of child `i`: the first child that was
/// never visited, else the first child with the highest score for the root
/// player, and with the lowest score for any other player. The scores of
/// children without a visit are not read.
pub fn select_by_score<'a, A: GameAction, Pl: Player>(
    node: &'a mut SearchNode<A, Pl>,
    scores: &Vec<i64>,
    is_root_player_turn: bool,
) -> (child: &'a mut SearchNode<A, Pl>)
    requires
        old(node).children.len() > 0,
        scores.len() == old(node).children.len(),
    ensures
        ({
            let i = selection(old(node)@, scores@, is_root_player_turn);
            &&& 0 <= i < old(node).children.len()
            &&& *child == old(node).children[i]
            &&& final(node).children@ == old(node).children@.update(i, *final(child))
            &&& final(node).action == old(node).action
            &&& final(node).root_player == old(node).root_player
            &&& final(node).state == old(node).state
            &&& final(node).visits == old(node).visits
            &&& final(node).total_value == old(node).total_value
        }),
{
    let ghost before = *node;
    proof {
        before.lemma_view_children();
    }
    let mut best: usize = 0;
    let mut i: usize = 0;
    while i < node.children.len()
        invariant
            *node == before,
            *old(node) == before,
            before@.children.len() == before.children.len(),
            forall|j: int|
                0 <= j < before.children.len() ==> #[trigger] before@.children[j] == before.children[j]@,
            before.children.len() > 0,
            scores.len() == before.children.len(),
            i <= node.children.len(),
            best < before.children.len(),
            forall|j: int| 0 <= j < i ==> (#[trigger] before@.children[j]).visits != 0,
            i > 0 ==> is_first_best(scores@, best as int, i as int, is_root_player_turn),
        decreases node.children.len() - i,
    {
        if node.children[i].visits == 0 {
            proof {
                assert(is_first_unvisited(before@, i as int));
                lemma_unvisited_selected(before@, scores@, i as int, is_root_player_turn);
            }
            return &mut node.children[i];
        }
        let better = if is_root_player_turn {
            scores[i] > scores[best]
        } else {
            scores[i] < scores[best]
        };
        if i == 0 || better {
            best = i;
        }
        i += 1;
    }
    proof {
        lemma_best_selected(before@, scores@, best as int, is_root_player_turn);
    }
    &mut node.children[best]
}

/// A well-formed node with a child can be handed to a policy: no child
/// has more visits than the node.
pub proof fn lemma_wf_selectable<A, Pl>(node: NodeView<A, Pl>)
    requires
        node.wf(),
        node.children.len() > 0,
    ensures
        selectable(node),
{
    if node.visits == 0 {
        assert(node.children[0].visits <= node.visits);
        assert(is_first_unvisited(node, 0));
    }
}

} // verus!
