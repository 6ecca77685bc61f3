use letter_boxed::coverage::Coverage;
use letter_boxed::graph::{Graph, Node, NodeID};
use letter_boxed::lexicon::Lexicon;
use letter_boxed::words::WordTrajectory;
use std::collections::HashSet;

fn coverage_of(width: usize, bits: &[usize]) -> Coverage {
    let mut c = Coverage::new(width);
    for b in bits {
        c.set_bit(*b);
    }
    c
}

fn set_bit_indices(c: &Coverage) -> Vec<usize> {
    (0..c.width()).filter(|i| c.is_set(*i)).collect()
}

fn graph_lexicon(words: &[&str]) -> Lexicon {
    let mut data: Vec<Vec<String>> = vec![Vec::new(); 26];
    for w in words {
        data[(w.as_bytes()[0] - b'a') as usize].push(w.to_string());
    }
    Lexicon::from_data(data).unwrap()
}

#[test]
fn node_basics() {
    // A node at 0 covering position 0, on a board of 12
    let node = Node::new(0, coverage_of(12, &[0]));
    assert_eq!(set_bit_indices(node.state()), vec![0]);
    assert_eq!(node.index(), 0);

    let mut traj = WordTrajectory::new();
    let indices = vec![0, 1, 2, 3, 4, 5, 6, 7, 8, 9, 10, 11];
    indices.iter().for_each(|i| {
        traj = traj.add_index(*i);
    });
    let new_node = node.transition(traj);

    assert_eq!(new_node.index(), 11);
    // every one of the 12 bits is set: 2^12 - 1
    assert_eq!(set_bit_indices(new_node.state()), indices);
    assert_eq!(new_node.score(), 12);
}

#[test]
fn graph_basics() {
    let zero = Coverage::new(1);
    let one = coverage_of(1, &[0]);

    let n0 = NodeID::new(0, zero);
    let n1 = NodeID::new(1, one);

    let mut g = Graph::new();
    assert_eq!(g.nodes().len(), 0);

    g.add_node(&n0);
    g.add_node(&n1);
    assert_eq!(g.nodes().len(), 2);

    // Adding again changes nothing
    g.add_node(&n1);
    assert_eq!(g.nodes().len(), 2);

    let mut g = Graph::new();
    g.add_edge(&n0, &n1, "a");
    assert_eq!(g.edges().len(), 1);
    assert_eq!(g.nodes().len(), 2);

    let found_n0 = g.get_node(&n0).unwrap();
    let found_n1 = g.get_node(&n1).unwrap();
    assert!(found_n0.id().same(&n0));
    assert!(found_n1.id().same(&n1));

    assert!(g.contains(&n0));
    assert!(g.contains(&n1));
    assert!(g.get_edge(&n0, &n1).is_some());
    assert!(g.get_edge(&n1, &n0).is_none());
}

#[test]
fn graph_edge_creation() {
    // Starting at position 0 ('u') and expanding it
    let letters = "uigaangbpiam";
    let n0 = NodeID::new(0, coverage_of(12, &[0]));
    let mut g = Graph::new();
    g.add_node(&n0);

    let lexicon = graph_lexicon(&["up", "unpin", "uuu", "ump", "pig"]);
    let created = g.generate_edges_for_node(&n0, letters, &lexicon).unwrap();
    assert_eq!(created.len(), g.nodes().len() - 1);
    // "up", "unpin" and "ump" can be placed; "uuu" cannot.
    assert_eq!(g.edges().len(), 3);
    for edge in g.edges() {
        let next_node = g.get_node(edge.next()).unwrap();

        // The new state covers exactly the letters of the word
        let covered_letters: HashSet<char> = set_bit_indices(next_node.state())
            .iter()
            .map(|i| letters.chars().nth(*i).unwrap())
            .collect();
        let word_letters: HashSet<char> = edge.word.chars().collect();
        assert_eq!(covered_letters, word_letters);

        // The new position holds the last letter of the word
        assert_eq!(letters.chars().nth(next_node.index()), edge.word.chars().last());
    }
}

#[test]
fn node_ordering() {
    // Scores: n0 1, n1 1, n2 3, n3 2. A score of 1 ranks lowest.
    let n0 = Node::new(0, coverage_of(12, &[1]));
    let n1 = Node::new(0, coverage_of(12, &[2]));
    let n2 = Node::new(0, coverage_of(12, &[0, 1, 2]));
    let n3 = Node::new(0, coverage_of(12, &[0, 1]));

    assert!(n2.ranks_above(&n3));
    assert!(n2.ranks_above(&n0));
    assert!(n2.ranks_above(&n1));
    assert!(n3.ranks_above(&n0));
    assert!(n3.ranks_above(&n1));
    assert!(!n0.ranks_above(&n1));
    assert!(!n1.ranks_above(&n0));
    assert!(!n0.ranks_above(&n3));
    assert!(!n3.ranks_above(&n2));

    // Even a node of score 0 ranks above one of score 1.
    let empty = Node::new(0, coverage_of(12, &[]));
    assert_eq!(empty.score(), 0);
    assert!(empty.ranks_above(&n0));
    assert!(!n0.ranks_above(&empty));
    assert!(n3.ranks_above(&empty));
    assert!(!empty.ranks_above(&n3));
}

#[test]
fn from_letters_seeds_one_node_per_position() {
    let g = Graph::from_letters("uigaangbpiam");
    assert_eq!(g.nodes().len(), 12);
    assert_eq!(g.edges().len(), 0);
    for (i, n) in g.nodes().iter().enumerate() {
        assert_eq!(n.index(), i);
        assert_eq!(set_bit_indices(n.state()), vec![i]);
        assert_eq!(n.score(), 1);
    }
}

#[test]
fn expansion_edges_improve_coverage() {
    let letters = "uigaangbpiam";
    let mut g = Graph::from_letters(letters);
    let lexicon = graph_lexicon(&["map", "magi", "mm", "pig", "gaining"]);
    let start = NodeID::new(11, coverage_of(12, &[11]));
    g.generate_edges_for_node(&start, letters, &lexicon);
    // "map" reaches (8, {11, 4, 8}); "magi" reaches (9, {11, 4, 6, 9}); "mm" cannot be placed.
    assert_eq!(g.edges().len(), 2);
    let e0 = &g.edges()[0];
    assert_eq!(e0.word, "map");
    assert_eq!(e0.next().position(), 8);
    assert_eq!(set_bit_indices(e0.next().coverage()), vec![4, 8, 11]);
    let e1 = &g.edges()[1];
    assert_eq!(e1.word, "magi");
    assert_eq!(e1.next().position(), 9);
    assert_eq!(set_bit_indices(e1.next().coverage()), vec![4, 6, 9, 11]);
    for e in g.edges() {
        let u = g.get_node(e.prev()).unwrap();
        let v = g.get_node(e.next()).unwrap();
        assert!(v.score() > u.score());
        for i in set_bit_indices(u.state()) {
            assert!(v.state().is_set(i));
        }
    }
    assert_eq!(g.nodes().len(), 14);
}

#[test]
fn first_improving_trajectory_wins() {
    // Starting at 4 ('a') with 3 and 4 covered, "aa" is placed in the order
    // [10, 4], [10, 3], [4, 10], [3, 10]: the first already adds 10, so it is
    // the one taken, and the edge ends at 4.
    let letters = "uigaangbpiam";
    let mut g = Graph::new();
    let start = NodeID::new(4, coverage_of(12, &[3, 4]));
    g.add_node(&start);
    let lexicon = graph_lexicon(&["aa"]);
    g.generate_edges_for_node(&start, letters, &lexicon);
    assert_eq!(g.edges().len(), 1);
    assert_eq!(g.edges()[0].next().position(), 4);
    assert_eq!(set_bit_indices(g.edges()[0].next().coverage()), vec![3, 4, 10]);
}

#[test]
fn no_edge_when_nothing_improves() {
    let letters = "uigaangbpiam";
    let mut g = Graph::new();
    let start = NodeID::new(4, coverage_of(12, &[3, 4, 10]));
    g.add_node(&start);
    let lexicon = graph_lexicon(&["aa", "aaa"]);
    let created = g.generate_edges_for_node(&start, letters, &lexicon).unwrap();
    assert!(created.is_empty());
    assert_eq!(g.edges().len(), 0);
}
