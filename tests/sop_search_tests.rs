use sop_search::sop::{Instance, LoadError};
use sop_search::soptree::{ForwardNode, ForwardSearch};

fn text(lines: &[&str]) -> Vec<Vec<u8>> {
    lines.iter().map(|l| l.as_bytes().to_vec()).collect()
}

fn matrix_lines(rows: &[[i32; 4]]) -> Vec<Vec<u8>> {
    let mut lines = vec![format!("{}", rows.len()).into_bytes()];
    for r in rows {
        let fields: Vec<String> = r.iter().map(|x| x.to_string()).collect();
        lines.push(fields.join("\t").into_bytes());
    }
    lines
}

/// A small instance where city 2 must come after city 1.
fn chain_search() -> ForwardSearch {
    let lines = matrix_lines(&[[0, 5, 1, 9], [-1, 0, 2, 3], [-1, -1, 0, 4], [-1, 1, 7, 0]]);
    ForwardSearch::new(Instance::new("chain", &lines).unwrap())
}

fn last(n: &ForwardNode) -> u32 {
    ForwardSearch::get_last_city(n)
}

fn child_cities(space: &ForwardSearch, node: &ForwardNode) -> Vec<u32> {
    space.children(node).iter().map(last).collect()
}

fn partial_cities(space: &ForwardSearch, node: &ForwardNode) -> Vec<u32> {
    let mut n = node.clone();
    let mut res = Vec::new();
    while let Some(c) = space.get_next_child(&mut n) {
        res.push(last(&c));
    }
    res
}

/// Best complete tour reachable from `node`, by exhaustive expansion.
fn best_completion(space: &ForwardSearch, node: &ForwardNode) -> Option<(u64, Vec<u32>)> {
    if space.goal(node) {
        return Some((space.bound(node), space.solution(node)));
    }
    let mut best: Option<(u64, Vec<u32>)> = None;
    for c in space.children(node) {
        if let Some(b) = best_completion(space, &c) {
            if best.as_ref().map_or(true, |x| b.0 < x.0) {
                best = Some(b);
            }
        }
    }
    best
}

#[test]
fn loads_matrix_and_sign_lists() {
    let lines = text(&["4", "-1\t0\t3\t4", "-1\t-1\t0\t2", "-1\t5\t-1\t0", "-1\t2\t6\t-1"]);
    let inst = Instance::new("four", &lines).unwrap();
    assert_eq!(inst.nb_cities(), 4);
    assert_eq!(inst.predecessors(&0), &Vec::<u32>::new());
    assert_eq!(inst.possible_successors(&0), &vec![1, 2, 3]);
    assert_eq!(inst.predecessors(&1), &vec![0]);
    assert_eq!(inst.possible_successors(&1), &vec![2, 3]);
    assert_eq!(inst.predecessors(&2), &vec![0]);
    assert_eq!(inst.possible_successors(&2), &vec![1, 3]);
    assert_eq!(inst.predecessors(&3), &vec![0]);
    assert_eq!(inst.possible_successors(&3), &vec![1, 2]);
    assert_eq!(inst.cost_arc(0, 1), 0);
    assert_eq!(inst.cost_arc(0, 2), 3);
    assert_eq!(inst.cost_arc(0, 3), 4);
    assert_eq!(inst.cost_arc(2, 1), 5);
    assert_eq!(inst.cost_arc(3, 2), 6);
    assert_eq!(inst.cost_arc(1, 0), -1);
}

#[test]
fn sign_lists_cover_every_column() {
    let lines = matrix_lines(&[[0, 5, 1, 9], [-1, 0, 2, 3], [-1, -1, 0, 4], [-1, 1, 7, 0]]);
    let inst = Instance::new("chain", &lines).unwrap();
    for i in 0..4u32 {
        for j in 0..4u32 {
            let p = inst.predecessors(&i).contains(&j);
            let s = inst.possible_successors(&i).contains(&j);
            if i == j {
                assert!(!p && !s);
            } else {
                assert!(p != s);
                assert_eq!(p, inst.cost_arc(i, j) < 0);
            }
        }
    }
}

#[test]
fn blank_fields_signs_and_extra_lines() {
    let lines = text(&["+2", "\t0\t\t+7\t", "-3\t\t0", "ignored line"]);
    let inst = Instance::new("blank", &lines).unwrap();
    assert_eq!(inst.nb_cities(), 2);
    assert_eq!(inst.cost_arc(0, 1), 7);
    assert_eq!(inst.cost_arc(1, 0), -3);
    assert_eq!(inst.predecessors(&1), &vec![0]);
}

#[test]
fn extreme_entries() {
    let lines = text(&["2", "-2147483648\t2147483647", "0\t0"]);
    let inst = Instance::new("big", &lines).unwrap();
    assert_eq!(inst.cost_arc(0, 0), i32::MIN);
    assert_eq!(inst.cost_arc(0, 1), i32::MAX);
    assert_eq!(
        Instance::new("over", &text(&["1", "2147483648"])).unwrap_err(),
        LoadError::InvalidRow(0)
    );
}

#[test]
fn rejects_bad_header() {
    assert_eq!(Instance::new("e", &text(&[])).unwrap_err(), LoadError::InvalidHeader);
    assert_eq!(Instance::new("e", &text(&["x"])).unwrap_err(), LoadError::InvalidHeader);
    assert_eq!(Instance::new("e", &text(&["-1"])).unwrap_err(), LoadError::InvalidHeader);
    assert_eq!(Instance::new("e", &text(&["4 "])).unwrap_err(), LoadError::InvalidHeader);
    assert_eq!(
        Instance::new("e", &text(&["4294967296"])).unwrap_err(),
        LoadError::InvalidHeader
    );
}

#[test]
fn rejects_missing_row() {
    let lines = text(&["3", "0\t1\t2", "1\t0\t2"]);
    assert_eq!(Instance::new("m", &lines).unwrap_err(), LoadError::MissingRow(2));
}

#[test]
fn rejects_bad_rows() {
    let bad_token = text(&["2", "0\t1x", "1\t0"]);
    assert_eq!(Instance::new("b", &bad_token).unwrap_err(), LoadError::InvalidRow(0));
    let short = text(&["2", "0\t1", "1"]);
    assert_eq!(Instance::new("b", &short).unwrap_err(), LoadError::InvalidRow(1));
    let lone_sign = text(&["2", "0\t-", "1\t0"]);
    assert_eq!(Instance::new("b", &lone_sign).unwrap_err(), LoadError::InvalidRow(0));
}

#[test]
fn from_matrix_requires_square() {
    assert!(Instance::from_matrix("s", vec![vec![0, 1], vec![1]]).is_none());
    let inst = Instance::from_matrix("s", vec![vec![0, -1], vec![1, 0]]).unwrap();
    assert_eq!(inst.predecessors(&0), &vec![1]);
    assert_eq!(inst.possible_successors(&0), &Vec::<u32>::new());
    assert_eq!(inst.possible_successors(&1), &vec![0]);
}

#[test]
fn root_node() {
    let space = chain_search();
    let root = space.root();
    assert_eq!(root.prefix(), &vec![0]);
    assert_eq!(space.bound(&root), 0);
    assert_eq!(space.guide(&root), 0);
    assert_eq!(space.prefix_bound(&root), 0);
    assert!(!space.goal(&root));
    assert_eq!(last(&root), 0);
}

#[test]
fn children_respect_precedence() {
    let space = chain_search();
    let root = space.root();
    let kids = space.children(&root);
    let cities: Vec<u32> = kids.iter().map(last).collect();
    assert_eq!(cities, vec![1, 3]);
    assert_eq!(space.bound(&kids[0]), 5);
    assert_eq!(space.bound(&kids[1]), 9);
    assert_eq!(kids[0].prefix(), &vec![0, 1]);
    let grand = space.children(&kids[0]);
    let cities: Vec<u32> = grand.iter().map(last).collect();
    assert_eq!(cities, vec![2, 3]);
    assert_eq!(space.bound(&grand[0]), 7);
    assert_eq!(space.bound(&grand[1]), 8);
}

#[test]
fn partial_expansion_in_cost_order() {
    let space = chain_search();
    let mut root = space.root();
    let a = space.get_next_child(&mut root).unwrap();
    assert_eq!(last(&a), 1);
    assert_eq!(space.bound(&a), 5);
    let b = space.get_next_child(&mut root).unwrap();
    assert_eq!(last(&b), 3);
    assert!(space.get_next_child(&mut root).is_none());
    assert!(space.get_next_child(&mut root).is_none());
    // a fresh child starts its own expansion from the beginning
    let mut a2 = a.clone();
    assert_eq!(last(&space.get_next_child(&mut a2).unwrap()), 2);
}

#[test]
fn partial_breaks_cost_ties_by_city() {
    let lines = text(&["4", "0\t3\t1\t1", "0\t0\t0\t0", "0\t0\t0\t0", "0\t0\t0\t0"]);
    let space = ForwardSearch::new(Instance::new("ties", &lines).unwrap());
    assert_eq!(partial_cities(&space, &space.root()), vec![2, 3, 1]);
    assert_eq!(child_cities(&space, &space.root()), vec![1, 2, 3]);
}

#[test]
fn expansions_agree_on_every_node() {
    let space = chain_search();
    let mut stack = vec![space.root()];
    while let Some(node) = stack.pop() {
        let mut a = child_cities(&space, &node);
        let mut b = partial_cities(&space, &node);
        a.sort();
        b.sort();
        assert_eq!(a, b);
        stack.extend(space.children(&node));
    }
}

#[test]
fn cost_is_sum_of_arcs_and_grows() {
    let space = chain_search();
    let lines = matrix_lines(&[[0, 5, 1, 9], [-1, 0, 2, 3], [-1, -1, 0, 4], [-1, 1, 7, 0]]);
    let inst = Instance::new("chain", &lines).unwrap();
    let mut stack = vec![space.root()];
    while let Some(node) = stack.pop() {
        let p = node.prefix();
        let mut sum: u64 = 0;
        for k in 1..p.len() {
            sum += inst.cost_arc(p[k - 1], p[k]) as u64;
        }
        assert_eq!(space.bound(&node), sum);
        for c in space.children(&node) {
            assert!(space.bound(&c) >= space.bound(&node));
            stack.push(c);
        }
    }
}

#[test]
fn goal_and_solution() {
    let space = chain_search();
    let root = space.root();
    let n1 = space.children(&root).remove(0);
    let n2 = space.children(&n1).remove(0);
    assert!(!space.goal(&n2));
    let n3 = space.children(&n2).remove(0);
    assert!(space.goal(&n3));
    assert_eq!(space.solution(&n3), vec![0, 1, 2, 3]);
    assert_eq!(space.bound(&n3), 11);
    assert!(space.children(&n3).is_empty());
}

#[test]
fn exhaustive_search_finds_optimum() {
    let space = chain_search();
    assert_eq!(best_completion(&space, &space.root()), Some((11, vec![0, 1, 2, 3])));
}

#[test]
fn dominance_keys() {
    let lines = text(&["4", "0\t1\t1\t1", "-1\t0\t1\t1", "-1\t1\t0\t1", "-1\t1\t1\t0"]);
    let space = ForwardSearch::new(Instance::new("sym", &lines).unwrap());
    let root = space.root();
    let kids = space.children(&root);
    let via1 = space.children(&kids[0]).into_iter().find(|n| last(n) == 2).unwrap();
    let via2 = space.children(&kids[1]).into_iter().find(|n| last(n) == 1).unwrap();
    let via2_end = space.children(&via2).into_iter().find(|n| last(n) == 3).unwrap();
    let via1_end = space.children(&via1).into_iter().find(|n| last(n) == 3).unwrap();
    assert!(space.get_pe(&via1_end) == space.get_pe(&via2_end));
    assert!(space.get_pe(&via1) != space.get_pe(&via2));
    assert!(space.get_pe(&root) != space.get_pe(&kids[0]));
    let n3_a = space.children(&kids[0]).into_iter().find(|n| last(n) == 3).unwrap();
    let n3_b = space.children(&kids[1]).into_iter().find(|n| last(n) == 3).unwrap();
    assert!(space.get_pe(&n3_a) != space.get_pe(&n3_b));
    assert_eq!(child_cities(&space, &via1_end), child_cities(&space, &via2_end));
    assert_eq!(partial_cities(&space, &via1_end), partial_cities(&space, &via2_end));
    assert_eq!(space.prefix_bound(&via1_end), 3);
    assert_eq!(via1_end.prefix(), &vec![0, 1, 2, 3]);
    assert_eq!(via2_end.prefix(), &vec![0, 2, 1, 3]);
}

fn diagonal_search() -> ForwardSearch {
    let lines = text(&["4", "-1\t0\t3\t4", "-1\t-1\t0\t2", "-1\t5\t-1\t0", "-1\t2\t6\t-1"]);
    ForwardSearch::new(Instance::new("diag", &lines).unwrap())
}

#[test]
fn negative_diagonal_scenario() {
    // a negative diagonal entry marks no precedence: a city is never its own predecessor
    let space = diagonal_search();
    let root = space.root();
    let kids = space.children(&root);
    let prefixes: Vec<Vec<u32>> = kids.iter().map(|k| k.prefix().clone()).collect();
    assert_eq!(prefixes, vec![vec![0, 1], vec![0, 2], vec![0, 3]]);
    let costs: Vec<u64> = kids.iter().map(|k| space.bound(k)).collect();
    assert_eq!(costs, vec![0, 3, 4]);
    assert_eq!(best_completion(&space, &space.root()), Some((0, vec![0, 1, 2, 3])));
}

#[test]
fn negative_diagonal_every_tour() {
    let space = diagonal_search();
    let mut goals: Vec<(Vec<u32>, u64)> = Vec::new();
    let mut stack = vec![space.root()];
    while let Some(node) = stack.pop() {
        if space.goal(&node) {
            goals.push((space.solution(&node), space.bound(&node)));
        }
        stack.extend(space.children(&node));
    }
    goals.sort();
    assert_eq!(
        goals,
        vec![
            (vec![0, 1, 2, 3], 0),
            (vec![0, 1, 3, 2], 8),
            (vec![0, 2, 1, 3], 10),
            (vec![0, 2, 3, 1], 5),
            (vec![0, 3, 1, 2], 6),
            (vec![0, 3, 2, 1], 15),
        ]
    );
}

#[test]
fn negative_diagonal_partial_expansion() {
    let space = diagonal_search();
    let mut root = space.root();
    let x1 = space.get_next_child(&mut root).unwrap();
    assert_eq!((x1.prefix().clone(), space.bound(&x1)), (vec![0, 1], 0));
    let x2 = space.get_next_child(&mut root).unwrap();
    assert_eq!((x2.prefix().clone(), space.bound(&x2)), (vec![0, 2], 3));
    let x3 = space.get_next_child(&mut root).unwrap();
    assert_eq!((x3.prefix().clone(), space.bound(&x3)), (vec![0, 3], 4));
    assert!(space.get_next_child(&mut root).is_none());
    let mut n1 = x1;
    let mut n2 = space.get_next_child(&mut n1).unwrap();
    let n3 = space.get_next_child(&mut n2).unwrap();
    assert!(space.goal(&n3));
    assert_eq!(space.bound(&n3), 0);
    assert_eq!(space.solution(&n3), vec![0, 1, 2, 3]);
}

#[test]
fn scenario_with_zero_diagonal() {
    let lines = text(&["4", "0\t0\t3\t4", "-1\t0\t0\t2", "-1\t5\t0\t0", "-1\t2\t6\t0"]);
    let space = ForwardSearch::new(Instance::new("zero", &lines).unwrap());
    assert_eq!(child_cities(&space, &space.root()), vec![1, 2, 3]);
    assert_eq!(partial_cities(&space, &space.root()), vec![1, 2, 3]);
    assert_eq!(best_completion(&space, &space.root()), Some((0, vec![0, 1, 2, 3])));
}
