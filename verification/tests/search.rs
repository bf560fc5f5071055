use visgraph::a_star::NO_NODE;
use visgraph::{a_star, reconstruct_path, AStarInput, Cost, Frontier, NodeCost};

fn cost(value: f64) -> Cost {
    Cost::from_bits(value.to_bits()).unwrap()
}

fn number(cost: Cost) -> f64 {
    f64::from_bits(cost.bits())
}

/// A graph with a length for each edge and an estimate for each node.
struct Weighted {
    edges: Vec<Vec<usize>>,
    lengths: Vec<Vec<f64>>,
    estimates: Vec<f64>,
    start: usize,
    end: usize,
}

impl Weighted {
    fn new(nodes: usize, start: usize, end: usize) -> Self {
        Weighted {
            edges: vec![vec![]; nodes],
            lengths: vec![vec![f64::INFINITY; nodes]; nodes],
            estimates: vec![0.; nodes],
            start,
            end,
        }
    }

    fn one_way(&mut self, from: usize, to: usize, length: f64) {
        self.edges[from].push(to);
        self.lengths[from][to] = length;
    }

    fn both_ways(&mut self, a: usize, b: usize, length: f64) {
        self.one_way(a, b, length);
        self.one_way(b, a, length);
    }

    fn length_of(&self, path: &[usize]) -> f64 {
        path.windows(2).map(|step| self.lengths[step[0]][step[1]]).sum()
    }

    /// The length of the shortest path from `from` to the end that visits no
    /// node of `seen` twice, by trying them all.
    fn shortest(&self, from: usize, seen: &mut Vec<bool>) -> f64 {
        if from == self.end {
            return 0.;
        }
        seen[from] = true;
        let mut best = f64::INFINITY;
        for &to in &self.edges[from] {
            if !seen[to] {
                let rest = self.shortest(to, seen);
                if self.lengths[from][to] + rest < best {
                    best = self.lengths[from][to] + rest;
                }
            }
        }
        seen[from] = false;
        best
    }

    fn is_path(&self, path: &[usize]) -> bool {
        !path.is_empty()
            && path[0] == self.start
            && path[path.len() - 1] == self.end
            && path.windows(2).all(|step| self.edges[step[0]].contains(&step[1]))
    }
}

impl AStarInput for Weighted {
    fn neighbors(&self, node: usize) -> &[usize] {
        &self.edges[node]
    }
    fn distance(&self, from: usize, to: usize) -> Cost {
        cost(self.lengths[from][to])
    }
    fn heuristic(&self, node: usize) -> Cost {
        cost(self.estimates[node])
    }
    fn len(&self) -> usize {
        self.edges.len()
    }
    fn start(&self) -> usize {
        self.start
    }
    fn end(&self) -> usize {
        self.end
    }
}

fn small_city(end: usize) -> Weighted {
    // 0 --2-- 1 --2-- 3 --1-- 5
    // |       |       |
    // 5       1       4
    // |       |       |
    // 2 --1-- 4 --3-- 6      7 stands alone
    let mut graph = Weighted::new(8, 0, end);
    graph.both_ways(0, 1, 2.);
    graph.both_ways(1, 3, 2.);
    graph.both_ways(3, 5, 1.);
    graph.both_ways(0, 2, 5.);
    graph.both_ways(1, 4, 1.);
    graph.both_ways(3, 6, 4.);
    graph.both_ways(2, 4, 1.);
    graph.both_ways(4, 6, 3.);
    graph
}

#[test]
fn cost_keeps_its_bits() {
    assert_eq!(number(cost(2.5)), 2.5);
    assert_eq!(Cost::zero().bits(), 0);
    assert_eq!(number(Cost::zero()), 0.);
    assert_eq!(number(Cost::infinity()), f64::INFINITY);
    assert_eq!(Cost::infinity().bits(), 0x7ff0_0000_0000_0000);
}

#[test]
fn cost_is_neither_negative_nor_undefined() {
    assert!(Cost::from_bits((-1.0f64).to_bits()).is_none());
    assert!(Cost::from_bits((-0.0f64).to_bits()).is_none());
    assert!(Cost::from_bits(f64::NAN.to_bits()).is_none());
    assert!(Cost::from_bits(f64::NEG_INFINITY.to_bits()).is_none());
    assert!(Cost::from_bits(u64::MAX).is_none());
    assert!(Cost::from_bits(0x7ff0_0000_0000_0001).is_none());
    assert!(Cost::from_bits(0.0f64.to_bits()).is_some());
    assert!(Cost::from_bits(f64::MIN_POSITIVE.to_bits()).is_some());
    assert!(Cost::from_bits(f64::MAX.to_bits()).is_some());
    assert!(Cost::from_bits(f64::INFINITY.to_bits()).is_some());
}

#[test]
fn cost_plus_adds_the_numbers() {
    assert_eq!(number(cost(1.5).plus(cost(2.25))), 3.75);
    assert_eq!(number(cost(0.).plus(cost(7.))), 7.);
    assert_eq!(number(cost(7.).plus(cost(0.))), 7.);
    assert_eq!(number(cost(0.1).plus(cost(0.2))), 0.1 + 0.2);
    assert_eq!(number(cost(f64::MAX).plus(cost(f64::MAX))), f64::INFINITY);
    assert_eq!(number(Cost::infinity().plus(cost(1.))), f64::INFINITY);
    // Adding the bit patterns would give something else.
    assert_ne!(cost(1.5).plus(cost(2.25)).bits(), 1.5f64.to_bits() + 2.25f64.to_bits());
}

#[test]
fn cost_less_orders_as_the_numbers_do() {
    let values = [0., f64::MIN_POSITIVE, 0.1, 0.5, 1., 1.5, 2., 1e10, f64::MAX, f64::INFINITY];
    for &a in &values {
        for &b in &values {
            assert_eq!(cost(a).less(cost(b)), a < b);
        }
    }
}

#[test]
fn frontier_hands_out_the_lowest_estimate_first() {
    let mut frontier = Frontier::new();
    assert_eq!(frontier.len(), 0);
    assert!(frontier.pop().is_none());
    frontier.push(NodeCost { node: 0, f_score: cost(3.) });
    frontier.push(NodeCost { node: 1, f_score: cost(1.) });
    frontier.push(NodeCost { node: 2, f_score: cost(2.) });
    assert_eq!(frontier.len(), 3);
    assert_eq!(frontier.pop().unwrap().node, 1);
    assert_eq!(frontier.pop().unwrap().node, 2);
    assert_eq!(frontier.pop().unwrap().node, 0);
    assert!(frontier.pop().is_none());
    assert_eq!(frontier.len(), 0);
}

#[test]
fn frontier_breaks_ties_by_ascending_node() {
    let mut frontier = Frontier::new();
    frontier.push(NodeCost { node: 9, f_score: cost(4.) });
    frontier.push(NodeCost { node: 3, f_score: cost(4.) });
    frontier.push(NodeCost { node: 5, f_score: cost(4.) });
    frontier.push(NodeCost { node: 7, f_score: cost(1.) });
    let order: Vec<usize> = (0..4).map(|_| frontier.pop().unwrap().node).collect();
    assert_eq!(order, vec![7, 3, 5, 9]);
}

#[test]
fn node_cost_precedence() {
    let low = NodeCost { node: 8, f_score: cost(1.) };
    let high = NodeCost { node: 2, f_score: cost(2.) };
    let high_too = NodeCost { node: 3, f_score: cost(2.) };
    assert!(low.goes_before(high));
    assert!(!high.goes_before(low));
    assert!(high.goes_before(high_too));
    assert!(!high_too.goes_before(high));
    assert!(high.goes_before(high));
}

#[test]
fn reconstruct_path_follows_the_predecessors() {
    let came_from = vec![NO_NODE, 0, 1, 1, NO_NODE];
    assert_eq!(reconstruct_path(&came_from, 3), Some(vec![0, 1, 3]));
    assert_eq!(reconstruct_path(&came_from, 2), Some(vec![0, 1, 2]));
    assert_eq!(reconstruct_path(&came_from, 0), Some(vec![0]));
    assert_eq!(reconstruct_path(&came_from, 4), Some(vec![4]));
}

#[test]
fn reconstruct_path_gives_up_on_a_circle() {
    assert_eq!(reconstruct_path(&vec![1, 0], 0), None);
    assert_eq!(reconstruct_path(&vec![0], 0), None);
    assert_eq!(reconstruct_path(&vec![NO_NODE, 2, 3, 1], 3), None);
    // The longest walk without a circle visits every node once.
    assert_eq!(reconstruct_path(&vec![NO_NODE, 0, 1, 2], 3), Some(vec![0, 1, 2, 3]));
}

#[test]
fn a_star_finds_the_cheapest_path() {
    let graph = small_city(6);
    assert_eq!(a_star(&graph), Some(vec![0, 1, 4, 6]));
}

#[test]
fn a_star_is_optimal_on_a_small_weighted_graph() {
    for end in 0..7 {
        let mut graph = small_city(end);
        // The cheapest way to the end, found by trying every path, is an
        // estimate that never overestimates; so is any fraction of it.
        for scale in [0., 0.5, 1.] {
            for node in 0..8 {
                let mut probe = small_city(end);
                probe.start = node;
                let exact = probe.shortest(node, &mut vec![false; 8]);
                graph.estimates[node] = if exact.is_finite() { exact * scale } else { 0. };
            }
            let path = a_star(&graph).expect("every end but the last is reachable");
            assert!(graph.is_path(&path));
            let shortest = graph.shortest(0, &mut vec![false; 8]);
            assert_eq!(graph.length_of(&path), shortest);
        }
    }
}

#[test]
fn a_star_returns_nothing_for_an_unreachable_end() {
    let graph = small_city(7);
    assert_eq!(a_star(&graph), None);
}

#[test]
fn a_star_from_a_node_to_itself() {
    let mut graph = small_city(0);
    assert_eq!(a_star(&graph), Some(vec![0]));
    graph.start = 7;
    graph.end = 7;
    assert_eq!(a_star(&graph), Some(vec![7]));
}

#[test]
fn a_star_follows_one_way_edges_only_forwards() {
    let mut graph = Weighted::new(3, 0, 2);
    graph.one_way(0, 1, 1.);
    graph.one_way(2, 1, 1.);
    assert_eq!(a_star(&graph), None);
    graph.one_way(1, 2, 1.);
    assert_eq!(a_star(&graph), Some(vec![0, 1, 2]));
}

#[test]
fn a_star_does_not_take_an_edge_of_infinite_length() {
    let mut graph = Weighted::new(2, 0, 1);
    graph.one_way(0, 1, f64::INFINITY);
    assert_eq!(a_star(&graph), None);
}

#[test]
fn a_star_breaks_ties_by_ascending_node() {
    // Two ways of the same length; the one through the lower node is found
    // first and kept, because the other does not improve on it.
    let mut graph = Weighted::new(4, 0, 3);
    graph.one_way(0, 2, 1.);
    graph.one_way(0, 1, 1.);
    graph.one_way(1, 3, 1.);
    graph.one_way(2, 3, 1.);
    assert_eq!(a_star(&graph), Some(vec![0, 1, 3]));
}

#[test]
fn a_star_with_a_misleading_estimate_still_returns_a_path() {
    let mut graph = small_city(6);
    graph.estimates = vec![0., 50., 0., 0., 50., 0., 0., 0.];
    let path = a_star(&graph).unwrap();
    assert!(graph.is_path(&path));
}

#[test]
fn a_star_keeps_a_done_node_done() {
    // The estimate never overestimates, but it drops by more than an edge is
    // long: node 3 is done before its cheapest cost is known, the end keeps the
    // way through node 4, and the cheapest way (0, 1, 3, 5; cost 12) is missed.
    let mut graph = Weighted::new(6, 0, 5);
    graph.one_way(0, 1, 1.);
    graph.one_way(0, 2, 2.);
    graph.one_way(0, 4, 3.);
    graph.one_way(1, 3, 1.);
    graph.one_way(2, 3, 2.);
    graph.one_way(3, 5, 10.);
    graph.one_way(4, 5, 10.);
    graph.estimates = vec![0., 11., 0., 0., 5., 0.];
    let path = a_star(&graph).unwrap();
    assert_eq!(path, vec![0, 4, 5]);
    assert_eq!(graph.length_of(&path), 13.);
    assert_eq!(graph.shortest(0, &mut vec![false; 6]), 12.);
}

#[test]
fn a_star_expands_a_node_again_until_it_improves_a_neighbour() {
    // Node 3 improves nothing when it first leaves the frontier, so it is not
    // done; when node 1 later shows a cheaper way to it, it is expanded again
    // and the end is reached through it.
    let mut graph = Weighted::new(6, 0, 5);
    graph.one_way(0, 1, 1.);
    graph.one_way(0, 2, 2.);
    graph.one_way(0, 4, 3.);
    graph.one_way(1, 3, 1.);
    graph.one_way(2, 3, 2.);
    graph.one_way(3, 5, 10.);
    graph.one_way(4, 5, 10.);
    graph.estimates = vec![0., 11., 0., 0., 0., 0.];
    let path = a_star(&graph).unwrap();
    assert_eq!(path, vec![0, 1, 3, 5]);
    assert_eq!(graph.length_of(&path), 12.);
}

#[test]
fn a_star_visits_no_node_twice() {
    for end in 0..7 {
        let mut graph = small_city(end);
        graph.estimates = vec![3., 0., 40., 1., 0., 7., 2., 0.];
        let path = a_star(&graph).unwrap();
        assert!(path.len() <= 8);
        for (i, node) in path.iter().enumerate() {
            assert!(!path[i + 1..].contains(node));
        }
    }
}

#[test]
fn a_star_finds_the_end_whatever_the_estimates() {
    let estimates = [
        vec![0., 0., 0., 0., 0., 0., 0., 0.],
        vec![9., 8., 7., 6., 5., 4., 3., 2.],
        vec![0., 1e9, 0., 1e9, 0., 1e9, 0., 1e9],
        vec![f64::INFINITY; 8],
        vec![f64::MAX, 0., f64::INFINITY, 1., f64::MAX, 2., 0., 0.],
    ];
    for end in 0..7 {
        for estimate in &estimates {
            let mut graph = small_city(end);
            graph.estimates = estimate.clone();
            let path = a_star(&graph).expect("a path leads to every node but the last");
            assert!(graph.is_path(&path));
        }
    }
    for estimate in &estimates {
        let mut graph = small_city(7);
        graph.estimates = estimate.clone();
        assert_eq!(a_star(&graph), None);
    }
}

#[test]
fn a_star_can_miss_the_end_where_an_edge_makes_a_cost_infinite() {
    // The way 0, 2, 1, 4 costs 1e308. Node 1 is first reached at cost 1e308,
    // from where the edge to the end costs infinitely much, and is done when
    // the cheaper way to it turns up.
    let mut graph = Weighted::new(5, 0, 4);
    graph.one_way(0, 1, 1e308);
    graph.one_way(0, 2, 1.);
    graph.one_way(2, 1, 1.);
    graph.one_way(1, 3, 1.);
    graph.one_way(1, 4, 1e308);
    graph.estimates = vec![0., 0., 1.7e308, 0., 0.];
    assert_eq!(graph.length_of(&[0, 2, 1, 4]), 1e308);
    assert_eq!(a_star(&graph), None);
    // Without the estimate that holds node 2 back, the end is found.
    graph.estimates = vec![0.; 5];
    assert_eq!(a_star(&graph), Some(vec![0, 2, 1, 4]));
}
