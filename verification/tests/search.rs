use othello::bitboard::BitBoard;
use othello::clock::{budget_spent, poll_due, Stopwatch, POLL_EVERY};
use othello::random::RandomSource;
use othello::search::{best_mean, Greedy, Node, Selector, Stats, MCTS};

fn rows(lines: &[&str]) -> Vec<String> {
    lines.iter().map(|line| line.to_string()).collect()
}

fn start() -> BitBoard {
    BitBoard::from_strings(
        rows(&[
            "........", "........", "........", "...10...", "...01...", "........", "........",
            "........",
        ]),
        0,
    )
}

/// Black can move nowhere, white can move to the third square of the top row.
fn stuck() -> BitBoard {
    BitBoard::from_strings(rows(&["10......"]), 0)
}

const START_MOVES: [u64; 4] = [1 << 19, 1 << 26, 1 << 37, 1 << 44];

/// The tuned rule of upper confidence bounds, in floating-point numbers.
struct UcbTuned;

impl Selector for UcbTuned {
    fn select(&self, parent_visits: usize, children: &Vec<Stats>) -> usize {
        let mut max = f64::NEG_INFINITY;
        let mut res = 0;
        for (index, child) in children.iter().enumerate() {
            let n = child.n as f64;
            let mean = child.q as f64 / n;
            let var = child.squares as f64 / n - mean * mean;
            let log = f64::log2(parent_visits as f64);
            let v_i = var + f64::sqrt(2.0 * log / n);
            let val = mean + f64::sqrt(log / n * f64::min(0.25, v_i));
            if val > max {
                max = val;
                res = index;
            }
        }
        res
    }
}

/// A selector that always names the child at one index.
struct Always(usize);

impl Selector for Always {
    fn select(&self, _parent_visits: usize, _children: &Vec<Stats>) -> usize {
        self.0
    }
}

fn stats(n: usize, q: i64) -> Stats {
    Stats { n, q, squares: n as u128 }
}

#[test]
fn a_new_node_has_every_legal_move_to_try() {
    let node = Node::new(None, start(), 0);
    assert_eq!(node.parent, None);
    assert_eq!(node.action, 0);
    assert_eq!(node.untried.iter().copied().collect::<Vec<u64>>(), START_MOVES.to_vec());
    assert!(node.children.is_empty());
    assert_eq!((node.n, node.q, node.squares), (0, 0, 0));
    assert!(node.is_not_fully_expanded());
    assert!(!node.no_legal_moves());
    let stats = node.stats();
    assert_eq!((stats.n, stats.q, stats.squares), (0, 0, 0));
}

#[test]
fn a_node_that_cannot_move_has_nothing_to_try() {
    let node = Node::new(Some(3), stuck(), 1 << 5);
    assert_eq!(node.parent, Some(3));
    assert_eq!(node.action, 1 << 5);
    assert!(node.untried.is_empty());
    assert!(!node.is_not_fully_expanded());
    assert!(node.no_legal_moves());
    assert!(!Node::new(None, stuck().pass(), 0).no_legal_moves());
}

#[test]
fn a_new_search_has_no_nodes() {
    let search = MCTS::new(Greedy, 3);
    assert!(search.table.is_empty());
    assert_eq!(search.playout, 3);
    let seeded = MCTS::with_source(Greedy, 2, RandomSource::seeded(1));
    assert!(seeded.table.is_empty());
    assert_eq!(seeded.playout, 2);
}

#[test]
fn gen_id_names_the_nodes_in_turn() {
    let mut search = MCTS::new(Greedy, 1);
    assert_eq!(search.gen_id(), 0);
    search.start(start());
    assert_eq!(search.gen_id(), 1);
    assert_eq!(search.expand(0), 1);
    assert_eq!(search.gen_id(), 2);
}

#[test]
fn start_makes_the_root() {
    let mut search = MCTS::new(Greedy, 1);
    assert_eq!(search.start(start()), 0);
    assert_eq!(search.table.len(), 1);
    assert_eq!(search.table[0].parent, None);
    assert_eq!(search.table[0].state.black, start().black);
    assert_eq!(search.table[0].n, 0);
    // A second start drops the first tree.
    search.expand(0);
    assert_eq!(search.start(stuck()), 0);
    assert_eq!(search.table.len(), 1);
    assert_eq!(search.table[0].state.black, stuck().black);
}

#[test]
fn expand_tries_the_moves_from_the_back() {
    let mut search = MCTS::new(Greedy, 1);
    search.start(start());
    for (round, expected) in START_MOVES.iter().rev().enumerate() {
        let id = search.expand(0);
        assert_eq!(id, round + 1);
        let child = &search.table[id];
        assert_eq!(child.parent, Some(0));
        assert_eq!(child.action, *expected);
        let played = start().play(*expected);
        assert_eq!((child.state.black, child.state.white), (played.black, played.white));
        assert_eq!(child.state.player, 1);
        assert_eq!((child.n, child.q, child.squares), (0, 0, 0));
        assert_eq!(child.untried.len(), 3);
        assert_eq!(search.table[0].children.len(), round + 1);
        assert_eq!(search.table[0].children[round], id);
        assert_eq!(search.table[0].untried.len(), 3 - round);
    }
    assert!(!search.table[0].is_not_fully_expanded());
}

#[test]
fn backup_turns_the_sign_at_every_step_up() {
    let mut search = MCTS::new(Greedy, 1);
    search.start(start());
    let child = search.expand(0);
    let grandchild = search.expand(child);
    let other = search.expand(0);
    search.backup(grandchild, 1);
    assert_eq!((search.table[grandchild].n, search.table[grandchild].q), (1, 1));
    assert_eq!((search.table[child].n, search.table[child].q), (1, -1));
    assert_eq!((search.table[0].n, search.table[0].q), (1, 1));
    assert_eq!((search.table[other].n, search.table[other].q), (0, 0));
    search.backup(child, 1);
    assert_eq!((search.table[grandchild].n, search.table[grandchild].q), (1, 1));
    assert_eq!((search.table[child].n, search.table[child].q), (2, 0));
    assert_eq!((search.table[0].n, search.table[0].q), (2, 0));
    search.backup(other, -1);
    assert_eq!((search.table[other].n, search.table[other].q), (1, -1));
    assert_eq!((search.table[0].n, search.table[0].q), (3, 1));
    search.backup(0, 0);
    assert_eq!((search.table[0].n, search.table[0].q, search.table[0].squares), (4, 1, 3));
    assert_eq!(search.table[child].squares, 2);
    assert_eq!(search.table[grandchild].squares, 1);
    assert_eq!(search.table[other].squares, 1);
}

#[test]
fn backup_adds_the_squares_of_larger_rewards() {
    let mut search = MCTS::new(Greedy, 3);
    search.start(start());
    let child = search.expand(0);
    search.backup(child, -3);
    search.backup(child, 2);
    assert_eq!(
        (search.table[child].n, search.table[child].q, search.table[child].squares),
        (2, -1, 13)
    );
    assert_eq!((search.table[0].n, search.table[0].q, search.table[0].squares), (2, 1, 13));
}

#[test]
fn tree_policy_expands_a_node_with_untried_moves() {
    let mut search = MCTS::new(Greedy, 1);
    search.start(start());
    let leaf = search.tree_policy(0);
    assert_eq!(leaf, 1);
    assert_eq!(search.table.len(), 2);
    assert_eq!(search.table[1].action, 1 << 44);
    assert_eq!(search.table[1].parent, Some(0));
    assert_eq!(search.table[0].children, vec![1]);
}

#[test]
fn tree_policy_descends_when_every_move_is_tried() {
    let mut search = MCTS::new(Always(2), 1);
    search.start(start());
    for round in 0..4 {
        let leaf = search.tree_policy(0);
        assert_eq!(leaf, round + 1);
        search.backup(leaf, 1);
    }
    // The selector names the third child of the root, which is expanded.
    let leaf = search.tree_policy(0);
    assert_eq!(leaf, 5);
    assert_eq!(search.table[5].parent, Some(3));
    assert_eq!(search.table[3].children, vec![5]);
}

#[test]
fn tree_policy_reads_an_index_beyond_the_children_as_the_first() {
    let mut search = MCTS::new(Always(17), 1);
    search.start(start());
    for _ in 0..4 {
        let leaf = search.tree_policy(0);
        search.backup(leaf, 0);
    }
    let leaf = search.tree_policy(0);
    assert_eq!(search.table[leaf].parent, Some(1));
}

#[test]
fn tree_policy_makes_one_child_for_a_pass() {
    let mut search = MCTS::new(Greedy, 1);
    search.start(stuck());
    let leaf = search.tree_policy(0);
    assert_eq!(leaf, 1);
    let child = &search.table[1];
    assert_eq!(child.parent, Some(0));
    assert_eq!(child.action, 0);
    assert_eq!((child.state.black, child.state.white), (stuck().black, stuck().white));
    assert_eq!(child.state.player, 1);
    assert_eq!((child.n, child.q), (0, 0));
    assert_eq!(child.untried.iter().copied().collect::<Vec<u64>>(), vec![1u64 << 61]);
    search.backup(leaf, 1);
    // The next descent goes through the child of the pass and tries its move.
    let leaf = search.tree_policy(0);
    assert_eq!(leaf, 2);
    assert_eq!(search.table[0].children, vec![1]);
    assert_eq!(search.table[2].parent, Some(1));
    assert_eq!(search.table[2].action, 1 << 61);
    search.backup(leaf, 1);
    // The game is over in that node: the descent ends there and makes nothing.
    let leaf = search.tree_policy(0);
    assert_eq!(leaf, 2);
    assert_eq!(search.table.len(), 3);
}

#[test]
fn tree_policy_ends_at_once_where_the_game_is_over() {
    let over = BitBoard::from_strings(rows(&["0......."]), 0);
    let mut search = MCTS::new(Greedy, 1);
    search.start(over);
    assert_eq!(search.tree_policy(0), 0);
    assert_eq!(search.table.len(), 1);
    assert!(search.table[0].children.is_empty());
}

#[test]
fn default_policy_sums_the_playouts() {
    let over = BitBoard::from_strings(rows(&["0......."]), 0);
    let mut search = MCTS::new(Greedy, 5);
    search.start(over);
    assert_eq!(search.default_policy(0), 5);
    let mut search = MCTS::new(Greedy, 4);
    search.start(stuck());
    assert_eq!(search.default_policy(0), -4);
    let mut none = MCTS::new(Greedy, 0);
    none.start(start());
    assert_eq!(none.default_policy(0), 0);
    let mut less = MCTS::new(Greedy, -2);
    less.start(start());
    assert_eq!(less.default_policy(0), 0);
}

#[test]
fn default_policy_stays_within_the_number_of_playouts() {
    let mut search = MCTS::new(Greedy, 7);
    search.start(start());
    for _ in 0..10 {
        let reward = search.default_policy(0);
        assert!((-7..=7).contains(&reward));
    }
    assert_eq!(search.table.len(), 1);
    assert_eq!(search.table[0].n, 0);
}

#[test]
fn default_policy_repeats_with_the_same_seed() {
    let mut first = MCTS::with_source(Greedy, 6, RandomSource::seeded(11));
    let mut second = MCTS::with_source(Greedy, 6, RandomSource::seeded(11));
    first.start(start());
    second.start(start());
    for _ in 0..5 {
        assert_eq!(first.default_policy(0), second.default_policy(0));
    }
}

#[test]
fn best_mean_takes_the_first_of_the_highest() {
    assert_eq!(best_mean(&Vec::new()), None);
    assert_eq!(best_mean(&vec![stats(0, 0), stats(0, 0)]), None);
    assert_eq!(best_mean(&vec![stats(2, 1), stats(4, 2), stats(1, 0)]), Some(0));
    assert_eq!(best_mean(&vec![stats(2, 1), stats(4, 3), stats(1, 0)]), Some(1));
    assert_eq!(best_mean(&vec![stats(0, 0), stats(3, -3), stats(2, -1)]), Some(2));
    assert_eq!(best_mean(&vec![stats(3, -1), stats(0, 5), stats(5, -2)]), Some(0));
    // One half against four ninths: the difference is lost to no rounding.
    assert_eq!(best_mean(&vec![stats(9, 4), stats(2, 1)]), Some(1));
    let large = i64::MAX;
    assert_eq!(best_mean(&vec![stats(usize::MAX, large), stats(usize::MAX, large - 1)]), Some(0));
    assert_eq!(best_mean(&vec![stats(usize::MAX, -large), stats(usize::MAX - 1, -large)]), Some(0));
}

#[test]
fn greedy_selects_the_best_mean_or_the_first_child() {
    assert_eq!(Greedy.select(10, &vec![stats(2, 1), stats(4, 3), stats(1, 0)]), 1);
    assert_eq!(Greedy.select(10, &vec![stats(0, 0), stats(0, 0)]), 0);
    assert_eq!(Greedy.select(0, &Vec::new()), 0);
}

#[test]
fn best_child_is_the_first_of_the_best() {
    let mut search = MCTS::new(Greedy, 1);
    search.start(start());
    assert_eq!(search.best_child(0), None);
    let first = search.expand(0);
    let second = search.expand(0);
    assert_eq!(search.best_child(0), None);
    search.backup(second, 0);
    assert_eq!(search.best_child(0), Some(second));
    search.backup(first, 0);
    assert_eq!(search.best_child(0), Some(first));
    search.backup(second, 1);
    assert_eq!(search.best_child(0), Some(second));
    search.backup(first, 1);
    assert_eq!(search.best_child(0), Some(first));
    search.backup(first, -1);
    assert_eq!(search.best_child(0), Some(second));
    let stats = search.child_stats(0);
    assert_eq!(stats.len(), 2);
    assert_eq!((stats[0].n, stats[0].q, stats[0].squares), (3, 0, 2));
    assert_eq!((stats[1].n, stats[1].q, stats[1].squares), (2, 1, 1));
}

#[test]
fn principal_line_follows_the_first_children() {
    let mut search = MCTS::new(Greedy, 1);
    search.start(start());
    let child = search.expand(0);
    let grandchild = search.expand(child);
    search.expand(0);
    search.backup(grandchild, 1);
    assert_eq!(search.principal_line(0), vec![(0, 1), (1, -1), (0, 1)]);
    assert_eq!(search.principal_line(child), vec![(1, -1), (0, 1)]);
    assert_eq!(search.principal_line(grandchild), vec![(0, 1)]);
    assert_eq!(search.principal_line(7), Vec::new());
}

#[test]
fn the_tuned_rule_prefers_the_child_with_fewer_visits_among_equal_means() {
    // Both children have the mean one half and the same spread; the bonus of
    // the second, with twice the visits, is the smaller one.
    let few = Stats { n: 10, q: 5, squares: 10 };
    let many = Stats { n: 20, q: 10, squares: 20 };
    assert_eq!(UcbTuned.select(30, &vec![few, many]), 0);
    assert_eq!(UcbTuned.select(30, &vec![many, few]), 1);
    // With one visit of the parent there is no bonus, and the first of two
    // equal means is taken.
    assert_eq!(UcbTuned.select(1, &vec![many, few]), 0);
    // A higher mean outweighs a small bonus.
    let better = Stats { n: 20, q: 19, squares: 20 };
    assert_eq!(UcbTuned.select(30, &vec![few, better]), 1);
}

#[test]
fn run_without_a_budget_makes_fifty_rounds_and_finds_a_legal_move() {
    let mut search = MCTS::new(UcbTuned, 1);
    let (position, count) = search.run(start(), 0);
    assert_eq!(count, 50);
    assert!(START_MOVES.contains(&position));
    assert_eq!(search.table[0].n, 50);
    assert_eq!(search.table[0].children.len(), 4);
    for node in search.table.iter().skip(1) {
        assert!(node.n >= 1);
        assert!(node.q.unsigned_abs() as usize <= node.n);
        assert!(node.squares <= node.n as u128);
    }
    let visits: usize = search.table[0].children.iter().map(|&id| search.table[id].n).sum();
    assert_eq!(visits, 50);
}

#[test]
fn run_returns_the_move_of_the_child_with_the_best_mean() {
    let mut search = MCTS::with_source(UcbTuned, 2, RandomSource::seeded(5));
    let (position, count) = search.run(start(), 0);
    assert_eq!(count, 50);
    let best = search.best_child(0).unwrap();
    assert_eq!(search.table[best].action, position);
    for &id in search.table[0].children.iter() {
        let (a, b) = (&search.table[best], &search.table[id]);
        assert!(a.q as i128 * b.n as i128 >= b.q as i128 * a.n as i128);
    }
}

#[test]
fn run_finds_the_only_move() {
    let state = stuck().pass();
    for budget in [0, 1, 30] {
        let mut search = MCTS::new(UcbTuned, 1);
        let (position, count) = search.run(state, budget);
        assert_eq!(position, 1 << 61);
        assert!(count >= 50);
        assert_eq!(count % 50, 0);
    }
    let mut greedy = MCTS::new(Greedy, 3);
    assert_eq!(greedy.run(state, 0), (1 << 61, 50));
}

#[test]
fn run_repeats_with_the_same_seed() {
    let mut first = MCTS::with_source(Greedy, 1, RandomSource::seeded(3));
    let mut second = MCTS::with_source(Greedy, 1, RandomSource::seeded(3));
    assert_eq!(first.run(start(), 0), second.run(start(), 0));
    assert_eq!(first.table.len(), second.table.len());
}

#[test]
fn run_takes_about_its_budget() {
    let watch = Stopwatch::start();
    let mut search = MCTS::new(UcbTuned, 1);
    let (position, count) = search.run(start(), 100);
    assert!(watch.elapsed_millis() >= 100);
    assert!(count >= 50);
    assert_eq!(count % 50, 0);
    assert!(START_MOVES.contains(&position));
}

#[test]
fn the_clock_is_looked_at_every_fiftieth_round() {
    assert_eq!(POLL_EVERY, 50);
    assert!(poll_due(50));
    assert!(poll_due(100));
    assert!(poll_due(0));
    assert!(!poll_due(1));
    assert!(!poll_due(49));
    assert!(!poll_due(51));
}

#[test]
fn the_budget_is_spent_when_the_time_has_passed() {
    assert!(budget_spent(0, 0));
    assert!(budget_spent(1000, 1000));
    assert!(budget_spent(1001, 1000));
    assert!(!budget_spent(999, 1000));
}

#[test]
fn the_stopwatch_does_not_run_backwards() {
    let watch = Stopwatch::start();
    let first = watch.elapsed_millis();
    let second = watch.elapsed_millis();
    assert!(first <= second);
    assert!(second < 10_000);
}
