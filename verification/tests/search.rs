use mocats::game::{GameAction, GameState, Player};
use mocats::model::NodeView;
use mocats::random::RandomSource;
use mocats::search_node::{NodeState, SearchNode};
use mocats::search_tree::SearchTree;
use mocats::tic_tac_toe::{TicTacToeMove, TicTacToePlayer, TicTacToePosition};
use mocats::tree_policy::{select_by_score, TreePolicy};

/// Upper confidence bounds applied to trees, scored in floating point.
struct Uct {
    exploration_constant: f32,
}

impl Uct {
    fn new(exploration_constant: f32) -> Uct {
        assert!(exploration_constant > 0.0);
        Uct { exploration_constant }
    }
}

fn order_key(score: f32) -> i64 {
    assert!(!score.is_nan());
    if score == 0.0 {
        return 0;
    }
    let bits = score.to_bits() as i32;
    if bits < 0 {
        (bits ^ i32::MAX) as i64
    } else {
        bits as i64
    }
}

impl<A: GameAction, Pl: Player> TreePolicy<A, Pl> for Uct {
    fn choice(&self, _: NodeView<A, Pl>, _: bool) -> usize {
        unreachable!()
    }

    fn lemma_choice_in_range(&self, _: NodeView<A, Pl>, _: bool) {}

    fn select_child<'a>(&self, node: &'a mut SearchNode<A, Pl>, is_root_player_turn: bool) -> &'a mut SearchNode<A, Pl> {
        let parent_visits_ln = (node.visits as f32).ln();
        let mut scores: Vec<i64> = Vec::new();
        for child in &node.children {
            if child.visits == 0 {
                scores.push(0);
                continue;
            }
            let mean = child.total_value as f32 / child.visits as f32;
            let bonus = self.exploration_constant * (parent_visits_ln / child.visits as f32).sqrt();
            scores.push(order_key(if is_root_player_turn { mean + bonus } else { mean - bonus }));
        }
        select_by_score(node, &scores, is_root_player_turn)
    }
}

#[derive(Debug, Clone, Copy, PartialEq)]
struct Pick(u8);

impl GameAction for Pick {
    fn lemma_eq_is_equality(_: Self, _: Self) {}
}

#[derive(Debug, Clone, Copy, PartialEq, Eq)]
enum Side {
    Root,
    Opponent,
}

impl Player for Side {
    fn lemma_eq_is_equality(_: Self, _: Self) {}
}

/// A game of fixed depth: at each ply the mover picks one of `width`
/// actions, and the leaf reached has the reward listed for it.
#[derive(Debug, Clone)]
struct Table {
    width: u8,
    depth: usize,
    rewards: Vec<i32>,
    path: Vec<u8>,
}

impl Table {
    fn new(width: u8, depth: usize, rewards: Vec<i32>) -> Table {
        Table { width, depth, rewards, path: Vec::new() }
    }
}

impl GameState<Pick, Side> for Table {
    fn legal_actions(&self) -> vstd::prelude::Seq<Pick> {
        unreachable!()
    }

    fn successor(&self, _: Pick) -> Self {
        unreachable!()
    }

    fn turn(&self) -> Side {
        unreachable!()
    }

    fn reward(&self, _: Side) -> vstd::prelude::int {
        unreachable!()
    }

    fn plies_left(&self) -> vstd::prelude::nat {
        unreachable!()
    }

    fn lemma_actions_distinct(&self) {}

    fn lemma_successor_closer(&self, _: Pick) {}

    fn lemma_reward_bounded(&self, _: Side) {}

    fn lemma_clone_is_copy(&self, _: &Self) {}

    fn get_actions(&self) -> Vec<Pick> {
        if self.path.len() == self.depth {
            Vec::new()
        } else {
            (0..self.width).map(Pick).collect()
        }
    }

    fn apply_action(&mut self, action: &Pick) {
        self.path.push(action.0);
    }

    fn get_turn(&self) -> Side {
        if self.path.len() % 2 == 0 {
            Side::Root
        } else {
            Side::Opponent
        }
    }

    fn get_reward_for_player(&self, player: Side) -> i32 {
        let mut index = 0usize;
        for step in &self.path {
            index = index * self.width as usize + *step as usize;
        }
        let reward = if self.path.len() == self.depth { self.rewards[index] } else { 0 };
        match player {
            Side::Root => reward,
            Side::Opponent => -reward,
        }
    }
}

fn same_tree(a: &SearchNode<Pick, Side>, b: &SearchNode<Pick, Side>) -> bool {
    a.action == b.action
        && a.root_player == b.root_player
        && a.state == b.state
        && a.visits == b.visits
        && a.total_value == b.total_value
        && a.children.len() == b.children.len()
        && a.children.iter().zip(b.children.iter()).all(|(x, y)| same_tree(x, y))
}

fn visits_never_drop(before: &SearchNode<Pick, Side>, after: &SearchNode<Pick, Side>) -> bool {
    before.visits <= after.visits
        && before.children.len() <= after.children.len()
        && before.children.iter().zip(after.children.iter()).all(|(x, y)| visits_never_drop(x, y))
}

fn copy_tree(node: &SearchNode<Pick, Side>) -> SearchNode<Pick, Side> {
    SearchNode {
        action: node.action,
        children: node.children.iter().map(copy_tree).collect(),
        root_player: node.root_player,
        state: node.state,
        visits: node.visits,
        total_value: node.total_value,
    }
}

#[test]
fn fresh_node_has_no_statistics() {
    let node = SearchNode::<Pick, Side>::new(Some(Pick(3)), Side::Root);
    assert_eq!(node.action, Some(Pick(3)));
    assert_eq!(node.root_player, Side::Root);
    assert_eq!(node.state, NodeState::ExpandableLeaf);
    assert_eq!(node.visits, 0);
    assert_eq!(node.total_value, 0);
    assert!(node.children.is_empty());
    assert_eq!(node.get_node_count(), 1);
}

#[test]
fn root_counts_one_visit_per_iteration() {
    let game = Table::new(3, 2, vec![1, 2, 3, 4, 5, 6, 7, 8, 9]);
    let mut tree = SearchTree::new(game, Uct::new(2.0));
    let mut rng = RandomSource::from_seed(1);
    for k in 1..=40u32 {
        let nodes_before = tree.root_node().get_node_count();
        tree.run(1, &mut rng);
        assert_eq!(tree.root_node().visits, k);
        let nodes = tree.root_node().get_node_count();
        assert!(nodes == nodes_before || nodes == nodes_before + 1);
        assert!(nodes <= k + 1);
    }
    assert_eq!(tree.root_node().children.len(), 3);
    tree.run(2000, &mut rng);
    assert_eq!(tree.root_node().visits, 2040);
    // The whole game has thirteen positions.
    assert!(tree.root_node().get_node_count() <= 1 + 3 + 9);
}

#[test]
fn wide_exploration_builds_the_whole_tree() {
    let game = Table::new(3, 2, vec![1, 2, 3, 4, 5, 6, 7, 8, 9]);
    let mut tree = SearchTree::new(game, Uct::new(1000.0));
    let mut rng = RandomSource::from_seed(1);
    tree.run(200, &mut rng);
    assert_eq!(tree.root_node().get_node_count(), 1 + 3 + 9);
    assert_eq!(tree.root_node().state, NodeState::Expanded);
    for child in &tree.root_node().children {
        assert_eq!(child.state, NodeState::Expanded);
        assert_eq!(child.children.len(), 3);
        for leaf in &child.children {
            assert!(leaf.children.is_empty());
        }
    }
}

#[test]
fn root_value_is_the_sum_of_the_rewards() {
    let game = Table::new(2, 1, vec![7, 7]);
    let mut tree = SearchTree::new(game, Uct::new(1.0));
    let mut rng = RandomSource::from_seed(5);
    tree.run(10, &mut rng);
    assert_eq!(tree.root_node().visits, 10);
    assert_eq!(tree.root_node().total_value, 70);
    let below: i64 = tree.root_node().children.iter().map(|c| c.total_value).sum();
    assert_eq!(below, 70 - 7 * terminal_discoveries(tree.root_node()));
}

fn terminal_discoveries(node: &SearchNode<Pick, Side>) -> i64 {
    node.children.iter().filter(|c| c.state == NodeState::TerminalLeaf).count() as i64
}

#[test]
fn running_again_adds_visits() {
    let game = Table::new(2, 3, vec![1, 0, 3, 2, 5, 4, 7, 6]);
    let mut tree = SearchTree::new(game, Uct::new(2.0));
    let mut rng = RandomSource::from_seed(9);
    tree.run(25, &mut rng);
    assert_eq!(tree.root_node().visits, 25);
    let before = copy_tree(tree.root_node());
    tree.run(17, &mut rng);
    assert_eq!(tree.root_node().visits, 42);
    assert!(visits_never_drop(&before, tree.root_node()));
    tree.run(0, &mut rng);
    assert_eq!(tree.root_node().visits, 42);
}

#[test]
fn single_ply_game_converges_on_the_best_reward() {
    for seed in 0..20u64 {
        let game = Table::new(3, 1, vec![2, 9, 5]);
        let mut tree = SearchTree::new(game, Uct::new(2.0));
        let mut rng = RandomSource::from_seed(seed);
        tree.run(300, &mut rng);
        assert_eq!(tree.get_best_action(), Some(Pick(1)));
        let visits: Vec<u32> = tree.root_node().children.iter().map(|c| c.visits).collect();
        assert!(visits.iter().all(|v| *v >= 1));
        // A child misses the one visit on which it was found to be terminal.
        assert_eq!(visits.iter().sum::<u32>() as i64, 300 - terminal_discoveries(tree.root_node()));
    }
}

#[test]
fn terminal_root_is_marked_and_recommends_nothing() {
    let game = Table::new(3, 0, vec![4]);
    let mut tree = SearchTree::new(game, Uct::new(2.0));
    let mut rng = RandomSource::from_seed(3);
    assert_eq!(tree.get_best_action(), None);
    tree.run(1, &mut rng);
    assert_eq!(tree.root_node().state, NodeState::TerminalLeaf);
    assert!(tree.root_node().children.is_empty());
    assert_eq!(tree.root_node().visits, 0);
    assert_eq!(tree.get_best_action(), None);
    tree.run(5, &mut rng);
    assert_eq!(tree.root_node().state, NodeState::TerminalLeaf);
    assert_eq!(tree.root_node().visits, 5);
    assert_eq!(tree.root_node().total_value, 20);
    assert_eq!(tree.root_node().get_node_count(), 1);
    assert_eq!(tree.get_best_action(), None);
}

#[test]
fn no_iteration_recommends_nothing() {
    let game = Table::new(3, 1, vec![2, 9, 5]);
    let mut tree = SearchTree::new(game, Uct::new(2.0));
    assert_eq!(tree.get_best_action(), None);
    assert_eq!(tree.root_node().action, None);
    assert_eq!(tree.root_node().root_player, Side::Root);
}

#[test]
fn two_ply_game_prefers_the_better_guarantee() {
    // After action 0 the opponent can hold the root player to 1, after
    // action 1 only to 4.
    for seed in 0..20u64 {
        let game = Table::new(2, 2, vec![10, 1, 4, 5]);
        let mut tree = SearchTree::new(game, Uct::new(2.0));
        let mut rng = RandomSource::from_seed(seed);
        tree.run(2000, &mut rng);
        assert_eq!(tree.get_best_action(), Some(Pick(1)));
    }
}

#[test]
fn expansion_tries_every_action_once() {
    let game = Table::new(5, 1, vec![0, 0, 0, 0, 0]);
    let mut rng = RandomSource::from_seed(11);
    let mut node = SearchNode::<Pick, Side>::new(None, Side::Root);
    for k in 1..=5usize {
        assert_eq!(node.state, NodeState::ExpandableLeaf);
        let added = node.expand(&game, &mut rng).unwrap();
        assert_eq!(added.visits, 0);
        assert_eq!(added.state, NodeState::ExpandableLeaf);
        assert_eq!(node.children.len(), k);
    }
    assert_eq!(node.state, NodeState::Expanded);
    let mut actions: Vec<u8> = node.children.iter().map(|c| c.action.unwrap().0).collect();
    actions.sort();
    assert_eq!(actions, vec![0, 1, 2, 3, 4]);
}

#[test]
fn expansion_of_a_terminal_position_marks_the_leaf() {
    let game = Table::new(5, 0, vec![0]);
    let mut rng = RandomSource::from_seed(11);
    let mut node = SearchNode::<Pick, Side>::new(None, Side::Root);
    assert!(node.expand(&game, &mut rng).is_none());
    assert_eq!(node.state, NodeState::TerminalLeaf);
    assert!(node.children.is_empty());
}

#[test]
fn one_iteration_adds_one_visited_child() {
    let mut game = Table::new(2, 2, vec![3, 3, 3, 3]);
    let mut rng = RandomSource::from_seed(4);
    let mut node = SearchNode::<Pick, Side>::new(None, Side::Root);
    let reward = node.run_iteration(&mut game, &Uct::new(2.0), &mut rng);
    assert_eq!(reward, 3);
    assert!(game.get_actions().is_empty());
    assert_eq!(node.visits, 1);
    assert_eq!(node.total_value, 3);
    assert_eq!(node.children.len(), 1);
    assert_eq!(node.children[0].visits, 1);
    assert_eq!(node.children[0].total_value, 3);
    assert_eq!(node.children[0].root_player, Side::Root);
    assert_eq!(node.get_node_count(), 2);
}

#[test]
fn equal_seeds_grow_equal_trees() {
    for seed in [0u64, 1, 77, 123456789] {
        let mut first = SearchTree::new(Table::new(3, 3, (0..27).collect()), Uct::new(3.0));
        let mut second = SearchTree::new(Table::new(3, 3, (0..27).collect()), Uct::new(3.0));
        let mut rng_first = RandomSource::from_seed(seed);
        let mut rng_second = RandomSource::from_seed(seed);
        first.run(500, &mut rng_first);
        second.run(500, &mut rng_second);
        assert!(same_tree(first.root_node(), second.root_node()));
        assert_eq!(first.get_best_action(), second.get_best_action());
    }
}

#[test]
fn different_seeds_can_grow_different_trees() {
    let mut trees = Vec::new();
    for seed in 0..8u64 {
        let mut tree = SearchTree::new(Table::new(3, 3, (0..27).collect()), Uct::new(3.0));
        let mut rng = RandomSource::from_seed(seed);
        tree.run(3, &mut rng);
        trees.push(copy_tree(tree.root_node()));
    }
    assert!(trees.iter().any(|t| !same_tree(t, &trees[0])));
}

#[test]
fn draws_stay_below_the_bound() {
    let mut rng = RandomSource::from_seed(8);
    let mut seen = [false; 4];
    for _ in 0..200 {
        let i = rng.next_below(4);
        assert!(i < 4);
        seen[i] = true;
    }
    assert!(seen.iter().all(|s| *s));
    for _ in 0..20 {
        assert_eq!(rng.next_below(1), 0);
    }
}

#[test]
fn policy_takes_the_first_unvisited_child() {
    let mut node = SearchNode::<Pick, Side>::new(None, Side::Root);
    for (i, visits) in [3u32, 0, 0].iter().enumerate() {
        let mut child = SearchNode::new(Some(Pick(i as u8)), Side::Root);
        child.visits = *visits;
        child.total_value = 100 * *visits as i64;
        node.children.push(child);
    }
    node.visits = 3;
    node.state = NodeState::Expanded;
    let policy = Uct::new(2.0);
    assert_eq!(policy.select_child(&mut node, true).action, Some(Pick(1)));
    assert_eq!(policy.select_child(&mut node, false).action, Some(Pick(1)));
}

fn position(board_x: u16, board_o: u16, turn: TicTacToePlayer) -> TicTacToePosition {
    TicTacToePosition { board_x, board_o, turn }
}

fn node_with(parent_visits: u32, children: &[(u32, i64)]) -> SearchNode<Pick, Side> {
    let mut node = SearchNode::<Pick, Side>::new(None, Side::Root);
    for (i, (visits, total_value)) in children.iter().enumerate() {
        let mut child = SearchNode::new(Some(Pick(i as u8)), Side::Root);
        child.visits = *visits;
        child.total_value = *total_value;
        node.children.push(child);
    }
    node.visits = parent_visits;
    node.state = NodeState::Expanded;
    node
}

#[test]
fn root_player_takes_the_highest_upper_bound() {
    // First child: -1 + 2 sqrt(ln 5 / 1) = 1.5373; second: 1/4 + 2 sqrt(ln 5 / 4) = 1.5186.
    let mut node = node_with(5, &[(1, -1), (4, 1)]);
    assert_eq!(Uct::new(2.0).select_child(&mut node, true).action, Some(Pick(0)));
    // With a mean of 1/2 the second child is ahead: 1.7686.
    let mut node = node_with(5, &[(1, -1), (4, 2)]);
    assert_eq!(Uct::new(2.0).select_child(&mut node, true).action, Some(Pick(1)));
}

#[test]
fn other_player_takes_the_lowest_lower_bound() {
    // First child: 1 - 1.5373 = -1.5373; second: -1/4 - 1.2686 = -1.5186.
    let mut node = node_with(5, &[(1, 1), (4, -1)]);
    assert_eq!(Uct::new(2.0).select_child(&mut node, false).action, Some(Pick(0)));
    let mut node = node_with(5, &[(1, 1), (4, -2)]);
    assert_eq!(Uct::new(2.0).select_child(&mut node, false).action, Some(Pick(1)));
}

#[test]
fn equal_scores_go_to_the_first_child() {
    let mut node = node_with(12, &[(4, 8), (4, 8), (4, 8)]);
    assert_eq!(Uct::new(3.0).select_child(&mut node, true).action, Some(Pick(0)));
    assert_eq!(Uct::new(3.0).select_child(&mut node, false).action, Some(Pick(0)));
}

#[test]
fn single_ply_game_gives_the_best_reward_the_most_visits() {
    // Rewards 0.2, 0.9 and 0.5 with constant 1, in tenths.
    let game = Table::new(3, 1, vec![2, 9, 5]);
    let mut tree = SearchTree::new(game, Uct::new(10.0));
    let mut rng = RandomSource::from_seed(7);
    tree.run(1000, &mut rng);
    assert_eq!(tree.get_best_action(), Some(Pick(1)));
    let visits: Vec<u32> = tree.root_node().children.iter().map(|c| c.visits).collect();
    let best = tree.root_node().children.iter().position(|c| c.action == Some(Pick(1))).unwrap();
    for (i, v) in visits.iter().enumerate() {
        assert!(i == best || *v < visits[best]);
    }
}

#[test]
fn first_iterations_expand_the_root() {
    let game = Table::new(4, 2, (0..16).collect());
    let mut tree = SearchTree::new(game, Uct::new(2.0));
    let mut rng = RandomSource::from_seed(21);
    for k in 1..=10usize {
        tree.run(1, &mut rng);
        let root = tree.root_node();
        assert_eq!(root.children.len(), k.min(4));
        assert_eq!(root.state, if k >= 4 { NodeState::Expanded } else { NodeState::ExpandableLeaf });
        if k <= 4 {
            assert_eq!(root.get_node_count() as usize, k + 1);
        }
        let mut actions: Vec<u8> = root.children.iter().map(|c| c.action.unwrap().0).collect();
        actions.sort();
        actions.dedup();
        assert_eq!(actions.len(), root.children.len());
    }
}

fn best_move(game: TicTacToePosition, seed: u64) -> u16 {
    let mut tree = SearchTree::<TicTacToePosition, TicTacToeMove, TicTacToePlayer, Uct>::new(
        game,
        Uct::new(2.0),
    );
    let mut rng = RandomSource::from_seed(seed);
    tree.run(2000, &mut rng);
    tree.get_best_action().unwrap().pos
}

/// The winner under best play, `None` for a draw.
fn minimax(game: &TicTacToePosition) -> Option<TicTacToePlayer> {
    let moves = game.get_moves();
    if moves.is_empty() {
        return game.get_winner();
    }
    let mut draw = false;
    for m in moves {
        let mut next = *game;
        next.make_move(m);
        match minimax(&next) {
            Some(winner) if winner == game.turn => return Some(winner),
            None => draw = true,
            _ => {}
        }
    }
    if draw {
        None
    } else {
        Some(game.turn.other())
    }
}

#[test]
fn search_takes_the_winning_square() {
    // X holds two of the top row and is to move.
    let game = position(0b000000011, 0b000011000, TicTacToePlayer::X);
    for seed in 0..5u64 {
        assert_eq!(best_move(game, seed), 0b000000100);
    }
}

#[test]
fn search_blocks_the_losing_square() {
    // O holds two of the middle row and X must take the third.
    let game = position(0b001000001, 0b000011000, TicTacToePlayer::X);
    for seed in 0..5u64 {
        assert_eq!(best_move(game, seed), 0b000100000);
    }
}

#[test]
fn search_keeps_the_value_of_the_position() {
    // From every position two plies into the game, the recommended move
    // leads to a position that is worth as much under best play.
    let start = TicTacToePosition::new();
    let mut seed = 0u64;
    for first in start.get_moves() {
        let mut after_first = start;
        after_first.make_move(first);
        for second in after_first.get_moves() {
            let mut game = after_first;
            game.make_move(second);
            let value = minimax(&game);
            let best = best_move(game, seed);
            seed += 1;
            assert!(game.get_moves().contains(&best));
            let mut next = game;
            next.make_move(best);
            assert_eq!(minimax(&next), value, "{:?} then {}", game, best);
        }
    }
}

#[test]
fn search_from_the_empty_board_finds_a_drawing_move() {
    let game = TicTacToePosition::new();
    let best = best_move(game, 42);
    let mut next = game;
    next.make_move(best);
    assert_eq!(minimax(&next), None);
}


fn helper(
    init_game_state: &mut TicTacToePosition,
    tablebase: &mut std::collections::HashMap<TicTacToePosition, Option<TicTacToePlayer>>,
    searched: &mut std::collections::HashSet<TicTacToePosition>,
    rng: &mut RandomSource,
) -> Option<TicTacToePlayer> {
    let moves = init_game_state.get_moves();
    if moves.is_empty() {
        return init_game_state.get_winner();
    }
    let mut minimax_results_for_moves = Vec::new();
    for m in moves {
        let mut game = init_game_state.clone();
        game.make_move(m);
        minimax_results_for_moves.push(helper(&mut game, tablebase, searched, rng));
    }
    let mut contains_player_win = false;
    let mut contains_draw = false;
    let mut contains_other_win = false;
    let res;
    for r in &minimax_results_for_moves {
        match r {
            None => contains_draw = true,
            Some(winner) => {
                if *winner == init_game_state.get_turn() {
                    contains_player_win = true;
                    break;
                } else {
                    contains_other_win = true;
                }
            }
        }
    }
    if contains_player_win {
        res = Some(init_game_state.get_turn());
    } else if contains_draw {
        res = None;
    } else if contains_other_win {
        res = Some(init_game_state.get_turn().other());
    } else {
        panic!("No results");
    }
    if tablebase.contains_key(init_game_state) {
        assert_eq!(*tablebase.get(init_game_state).unwrap(), res, "{}", init_game_state.to_text());
    }
    for (k, m) in init_game_state.get_moves().into_iter().enumerate() {
        let mut game = init_game_state.clone();
        game.make_move(m);
        if game.get_actions().is_empty() {
            continue;
        }
        // One search for each position, however often the walk meets it.
        if !searched.insert(game) {
            continue;
        }
        let mut mcts =
            SearchTree::<TicTacToePosition, TicTacToeMove, TicTacToePlayer, Uct>::new(game, Uct::new(2.));
        mcts.run(2000, rng);
        let best = mcts.get_best_action().unwrap().pos;
        game.make_move(best);
        // The position after the recommended move is worth what the
        // position searched was worth.
        tablebase.insert(game, minimax_results_for_moves[k]);
    }
    res
}

#[test]
fn test_all_ttt_positions() {
    let mut tablebase = std::collections::HashMap::new();
    let mut searched = std::collections::HashSet::new();
    let mut rng = RandomSource::from_seed(0);
    let mut game = TicTacToePosition::new();
    helper(&mut game, &mut tablebase, &mut searched, &mut rng);
    assert_eq!(searched.len(), 4519);
}
