use letter_boxed::solutions::random_string;
use letter_boxed::words::{can_make_word, WordTrajectory};

fn collect_all(word: &str, letters: &str) -> Vec<Vec<usize>> {
    let mut trajectories = can_make_word(word, letters);
    let mut out = Vec::new();
    while let Some(traj) = trajectories.next() {
        out.push(traj.indices().clone());
    }
    out
}

fn check_order(word: &str, letters: &str, keys: &[Vec<usize>]) {
    let mut trajectories = can_make_word(word, letters);
    for key in keys {
        let traj = trajectories.next().unwrap();
        assert_eq!(*traj.indices(), *key);
    }
}

#[test]
fn word_trajectories() {
    // Empty trajectory
    let traj = WordTrajectory::new();
    assert_eq!(traj.last(), None);

    // Add an index
    let traj2 = traj.add_index(0);
    assert_eq!(traj2.last(), Some(0));
    assert_eq!(traj2.len(), 1);
}

#[test]
fn s3_can_make_word() {
    let letters = "uigaangbpiam";

    let keys = vec![vec![11, 4, 8], vec![11, 3, 8]];
    check_order("map", letters, &keys);

    let keys = vec![
        vec![11, 4, 6, 9],
        vec![11, 4, 6, 1],
        vec![11, 4, 2, 9],
        vec![11, 3, 6, 9],
        vec![11, 3, 6, 1],
        vec![11, 3, 2, 9],
    ];
    check_order("magi", letters, &keys);

    let keys = vec![vec![8, 4, 10, 5], vec![8, 3, 10, 5]];
    check_order("paan", letters, &keys);

    let keys = vec![
        vec![8, 10, 5, 9, 5, 9],
        vec![8, 10, 5, 9, 5, 1],
        vec![8, 10, 5, 1, 5, 9],
        vec![8, 10, 5, 1, 5, 1],
    ];
    check_order("panini", letters, &keys);

    let mut keys = vec![
        vec![2, 3, 1, 5, 1, 5, 2],
        vec![2, 3, 1, 5, 1, 5, 6],
        vec![2, 3, 1, 5, 9, 5, 2],
        vec![2, 3, 1, 5, 9, 5, 6],
        vec![2, 3, 9, 5, 1, 5, 2],
        vec![2, 3, 9, 5, 1, 5, 6],
        vec![2, 3, 9, 5, 9, 5, 2],
        vec![2, 3, 9, 5, 9, 5, 6],
        vec![2, 4, 1, 5, 1, 5, 2],
        vec![2, 4, 1, 5, 1, 5, 6],
        vec![2, 4, 1, 5, 9, 5, 2],
        vec![2, 4, 1, 5, 9, 5, 6],
        vec![2, 4, 9, 5, 1, 5, 2],
        vec![2, 4, 9, 5, 1, 5, 6],
        vec![2, 4, 9, 5, 9, 5, 2],
        vec![2, 4, 9, 5, 9, 5, 6],
        vec![2, 10, 1, 5, 1, 5, 2],
        vec![2, 10, 1, 5, 1, 5, 6],
        vec![2, 10, 1, 5, 9, 5, 2],
        vec![2, 10, 1, 5, 9, 5, 6],
        vec![6, 3, 1, 5, 1, 5, 2],
        vec![6, 3, 1, 5, 1, 5, 6],
        vec![6, 3, 1, 5, 9, 5, 2],
        vec![6, 3, 1, 5, 9, 5, 6],
        vec![6, 3, 9, 5, 1, 5, 2],
        vec![6, 3, 9, 5, 1, 5, 6],
        vec![6, 3, 9, 5, 9, 5, 2],
        vec![6, 3, 9, 5, 9, 5, 6],
        vec![6, 4, 1, 5, 1, 5, 2],
        vec![6, 4, 1, 5, 1, 5, 6],
        vec![6, 4, 1, 5, 9, 5, 2],
        vec![6, 4, 1, 5, 9, 5, 6],
        vec![6, 4, 9, 5, 1, 5, 2],
        vec![6, 4, 9, 5, 1, 5, 6],
        vec![6, 4, 9, 5, 9, 5, 2],
        vec![6, 4, 9, 5, 9, 5, 6],
        vec![6, 10, 1, 5, 1, 5, 2],
        vec![6, 10, 1, 5, 1, 5, 6],
        vec![6, 10, 1, 5, 9, 5, 2],
        vec![6, 10, 1, 5, 9, 5, 6],
    ];
    keys.reverse();
    check_order("gaining", letters, &keys);

    // These are invalid words
    let mut trajectories = can_make_word("maam", letters);
    assert!(trajectories.next().is_none());
    let mut trajectories = can_make_word("asdfs", letters);
    assert!(trajectories.next().is_none());
}

#[test]
fn s2_can_make_word() {
    let letters = "ugangpim";

    let keys = vec![vec![7, 2, 4, 6], vec![7, 2, 1, 6]];
    check_order("magi", letters, &keys);

    let keys = vec![vec![5, 6, 4], vec![5, 6, 1]];
    check_order("pig", letters, &keys);

    let keys = vec![vec![4, 0, 7]];
    check_order("gum", letters, &keys);
}

#[test]
fn huge_can_make_word() {
    let s = 10;
    let letters = random_string(s * 4);
    println!("{}", letters);
    let mut trajectories = can_make_word("map", &letters);
    while let Some(_traj) = trajectories.next() {}
}

#[test]
fn map_enumeration_is_exactly_two_in_order() {
    let all = collect_all("map", "uigaangbpiam");
    assert_eq!(all, vec![vec![11, 4, 8], vec![11, 3, 8]]);
}

#[test]
fn absent_letter_yields_nothing() {
    assert!(collect_all("asdfs", "uigaangbpiam").is_empty());
    assert!(collect_all("zap", "uigaangbpiam").is_empty());
}

#[test]
fn single_letter_word_yields_each_occurrence() {
    // 'a' stands at 3, 4 and 10; the highest comes first.
    assert_eq!(collect_all("a", "uigaangbpiam"), vec![vec![10], vec![4], vec![3]]);
}

#[test]
fn empty_word_yields_the_empty_trajectory() {
    assert_eq!(collect_all("", "uigaangbpiam"), vec![Vec::<usize>::new()]);
}

#[test]
fn every_trajectory_respects_sides() {
    let letters = "uigaangbpiam";
    let side = letters.len() / 4;
    for word in ["gaining", "panini", "magi", "map", "gig", "aaa"] {
        for traj in collect_all(word, letters) {
            assert_eq!(traj.len(), word.len());
            for (k, p) in traj.iter().enumerate() {
                assert_eq!(letters.as_bytes()[*p], word.as_bytes()[k]);
            }
            for pair in traj.windows(2) {
                assert_ne!(pair[0] / side, pair[1] / side);
            }
        }
    }
}

#[test]
fn same_side_repeat_is_refused() {
    // "aa" needs two 'a's on different sides: 3 and 4 share a side.
    assert_eq!(
        collect_all("aa", "uigaangbpiam"),
        vec![vec![10, 4], vec![10, 3], vec![4, 10], vec![3, 10]]
    );
}

#[test]
fn enumeration_is_lazy_and_resumes() {
    let mut trajectories = can_make_word("magi", "uigaangbpiam");
    assert_eq!(*trajectories.next().unwrap().indices(), vec![11, 4, 6, 9]);
    assert_eq!(*trajectories.next().unwrap().indices(), vec![11, 4, 6, 1]);
    let rest = {
        let mut v = Vec::new();
        while let Some(t) = trajectories.next() {
            v.push(t.indices().clone());
        }
        v
    };
    assert_eq!(rest.len(), 4);
    assert!(trajectories.next().is_none());
}

#[test]
fn random_string_has_length_and_lowercase() {
    for n in [0usize, 1, 12, 40] {
        let s = random_string(n);
        assert_eq!(s.chars().count(), n);
        assert!(s.chars().all(|c| c.is_ascii_lowercase()));
    }
}
