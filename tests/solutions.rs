use letter_boxed::lexicon::Lexicon;
use letter_boxed::solutions::{
    letters_from_draws, random_string, ParamsError, SolutionError, SolutionResult, SolutionStatus, SolveParams, Solver,
};

fn solver_lexicon(words: &[&str]) -> Lexicon {
    let mut data: Vec<Vec<String>> = vec![Vec::new(); 26];
    for w in words {
        data[(w.as_bytes()[0] - b'a') as usize].push(w.to_string());
    }
    Lexicon::from_data(data).unwrap()
}

fn sample_words() -> Vec<&'static str> {
    "vampire enow whinge hewing ahem gnaw wrong power ewer nephew whim grove wove vowing pig evening ohm map magi paan panini gaining"
        .split(' ')
        .collect()
}

fn check_solution(letters: &str, words: &[String]) {
    assert!(!words.is_empty());
    for pair in words.windows(2) {
        assert_eq!(pair[1].chars().next(), pair[0].chars().last());
    }
    let used: std::collections::HashSet<char> = words.iter().flat_map(|w| w.chars()).collect();
    for c in letters.chars() {
        assert!(used.contains(&c));
    }
}

#[test]
fn graph_search_solve() {
    let letters = random_string(12);
    let lexicon = solver_lexicon(&sample_words());
    let params = SolveParams::new(letters.as_str()).unwrap();
    assert!(params.validate().is_ok());
    let solution = Solver::solve(params, &lexicon);
    println!("{:?}", solution.as_ref().map(|s| s.words().clone()));
}

#[test]
fn end_to_end_sample_board() {
    let letters = "rvheaipnwgmo";
    let lexicon = solver_lexicon(&sample_words());
    let params = SolveParams::new(letters).unwrap();
    let solution = Solver::solve(params, &lexicon).unwrap();
    let words = solution.words().clone();
    check_solution(letters, &words);
    let states = solution.states();
    assert_eq!(states.len(), words.len() + 1);
    assert_eq!(states[states.len() - 1].score(), 12);
    assert_eq!(states[0].score(), 1);
    for (i, w) in words.iter().enumerate() {
        assert_eq!(letters.chars().nth(states[i].index()), w.chars().next());
        assert_eq!(letters.chars().nth(states[i + 1].index()), w.chars().last());
    }
}

#[test]
fn solving_twice_gives_the_same_words() {
    let letters = "rvheaipnwgmo";
    let lexicon = solver_lexicon(&sample_words());
    let a = Solver::solve(SolveParams::new(letters).unwrap(), &lexicon).unwrap();
    let b = Solver::solve(SolveParams::new(letters).unwrap(), &lexicon).unwrap();
    assert_eq!(a.words(), b.words());
    assert_eq!(a.graph().nodes().len(), b.graph().nodes().len());
    assert_eq!(a.graph().edges().len(), b.graph().edges().len());
}

#[test]
fn unsolvable_board_gives_none() {
    let lexicon = solver_lexicon(&["map", "magi"]);
    let params = SolveParams::new("uigaangbpiam").unwrap();
    assert!(Solver::solve(params, &lexicon).is_none());
}

#[test]
fn empty_lexicon_gives_none() {
    let lexicon = solver_lexicon(&[]);
    let params = SolveParams::new("abcdefgh").unwrap();
    assert!(Solver::solve(params, &lexicon).is_none());
}

#[test]
fn result_status_follows_the_solution() {
    let lexicon = solver_lexicon(&sample_words());
    let ok = SolutionResult::from_params(SolveParams::new("rvheaipnwgmo").unwrap(), &lexicon);
    assert!(ok.solution().is_some());
    assert_eq!(ok.meta().status(), SolutionStatus::SUCCESS);
    let _ = ok.meta().runtime();

    let fail = SolutionResult::from_params(SolveParams::new("uigaangbpiam").unwrap(), &lexicon);
    assert!(fail.solution().is_none());
    assert_eq!(fail.meta().status(), SolutionStatus::FAIL(SolutionError::GENERAL));
}

#[test]
fn params_validation() {
    assert!(SolveParams::new("rvheaipnwgmo").unwrap().validate().is_ok());
    assert!(SolveParams::new("abcd").unwrap().validate().is_ok());
    for bad in ["", "abc", "abcdefghi"] {
        match SolveParams::new(bad).unwrap().validate() {
            Err(ParamsError::GameSize(msg)) => {
                assert_eq!(msg, "Game size must be a multiple of 4");
            }
            Ok(()) => panic!("accepted {:?}", bad),
        }
    }
    let err = SolveParams::new("abc").unwrap().validate().unwrap_err();
    assert_eq!(err.message(), "Game size must be a multiple of 4");
}

#[test]
fn draws_map_to_letters() {
    assert_eq!(letters_from_draws(&vec![0, 1, 25, 12]), "abzm");
    assert_eq!(letters_from_draws(&vec![]), "");
}

#[test]
fn result_stores_solution_and_runtime() {
    let lexicon = solver_lexicon(&sample_words());
    let solution = Solver::solve(SolveParams::new("rvheaipnwgmo").unwrap(), &lexicon);
    let runtime = std::time::Duration::from_millis(7);
    let r = SolutionResult::new(solution, runtime);
    assert!(r.solution().is_some());
    assert_eq!(r.meta().status(), SolutionStatus::SUCCESS);
    assert_eq!(*r.meta().runtime(), runtime);

    let r = SolutionResult::new(None, std::time::Duration::from_secs(2));
    assert_eq!(r.meta().status(), SolutionStatus::FAIL(SolutionError::GENERAL));
    assert_eq!(*r.meta().runtime(), std::time::Duration::from_secs(2));
}
