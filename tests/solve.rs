use bogglesolver::{boggle, join_words, Board, BoardError, BoggleHelper, BoggleSolver, Entry};

fn strings(v: &[&str]) -> Vec<String> {
    v.iter().map(|s| s.to_string()).collect()
}

fn path_of<'a>(found: &'a [Entry], word: &str) -> Option<&'a Vec<(usize, usize)>> {
    found.iter().find(|e| e.0 == word).map(|e| &e.1)
}

#[test]
fn two_by_two_finds_ab() {
    let found = boggle(&strings(&["AB", "CD"]), &strings(&["AB"])).unwrap();
    assert_eq!(found.len(), 1);
    assert_eq!(found[0].0, "AB");
    assert_eq!(found[0].1, vec![(0, 0), (0, 1)]);
}

#[test]
fn snaking_path_is_found() {
    let found = boggle(&strings(&["ABC", "DEF", "GHI"]), &strings(&["ABDEH"])).unwrap();
    assert_eq!(found.len(), 1);
    assert_eq!(found[0].0, "ABDEH");
    assert_eq!(found[0].1, vec![(0, 0), (0, 1), (1, 0), (1, 1), (2, 1)]);
}

#[test]
fn reversed_word_starts_at_second_cell() {
    let found = boggle(&strings(&["XY"]), &strings(&["YX"])).unwrap();
    assert_eq!(found.len(), 1);
    assert_eq!(found[0].0, "YX");
    assert_eq!(found[0].1, vec![(0, 1), (0, 0)]);
}

#[test]
fn same_letter_on_two_cells() {
    let found = boggle(&strings(&["AA"]), &strings(&["AA"])).unwrap();
    assert_eq!(found.len(), 1);
    assert_eq!(found[0].0, "AA");
    assert_eq!(found[0].1, vec![(0, 0), (0, 1)]);
}

#[test]
fn a_cell_is_not_used_twice() {
    let found = boggle(&strings(&["AB"]), &strings(&["ABA", "AA"])).unwrap();
    assert!(found.is_empty());
}

#[test]
fn empty_dictionary_finds_nothing() {
    let found = boggle(&strings(&["AB", "CD"]), &strings(&[])).unwrap();
    assert!(found.is_empty());
}

#[test]
fn unequal_rows_are_refused() {
    assert_eq!(boggle(&strings(&["AB", "C"]), &strings(&["AB"])), Err(BoardError::UnequalRows));
}

#[test]
fn no_rows_are_refused() {
    assert_eq!(boggle(&strings(&[]), &strings(&["AB"])), Err(BoardError::NoRows));
}

#[test]
fn empty_first_row_is_refused() {
    assert_eq!(boggle(&strings(&["", ""]), &strings(&["AB"])), Err(BoardError::EmptyRow));
}

#[test]
fn planted_words_are_all_found() {
    let board = strings(&["CAT", "XOE", "DGS"]);
    let words = strings(&["CAT", "DOG", "TOES", "GOES", "CATS", "ZEBRA", "TAC"]);
    let found = boggle(&board, &words).unwrap();
    for w in ["CAT", "DOG", "TOES", "GOES", "TAC"] {
        assert!(path_of(&found, w).is_some(), "missing {}", w);
    }
    assert!(path_of(&found, "CATS").is_none());
    assert!(path_of(&found, "ZEBRA").is_none());
    assert_eq!(found.len(), 5);
}

#[test]
fn every_path_spells_its_word() {
    let board = strings(&["CAT", "XOE", "DGS"]);
    let words = strings(&["CAT", "DOG", "TOES", "GOES", "TAC", "SEAT", "GOAT"]);
    let grid: Vec<Vec<char>> = board.iter().map(|r| r.chars().collect()).collect();
    let found = boggle(&board, &words).unwrap();
    assert!(!found.is_empty());
    for (word, path) in &found {
        assert!(words.contains(word));
        let spelled: String = path.iter().map(|&(r, c)| grid[r][c]).collect();
        assert_eq!(&spelled, word);
        for i in 0..path.len() {
            for j in (i + 1)..path.len() {
                assert_ne!(path[i], path[j]);
            }
        }
        for w in path.windows(2) {
            let (a, b) = (w[0], w[1]);
            assert!(a.0.abs_diff(b.0) <= 1 && a.1.abs_diff(b.1) <= 1);
        }
    }
}

#[test]
fn solving_twice_gives_the_same_result() {
    let board = strings(&["CAT", "XOE", "DGS"]);
    let words = strings(&["CAT", "DOG", "TOES", "GOES", "TAC", "GOAT", "SEAT"]);
    let first = boggle(&board, &words).unwrap();
    let second = boggle(&board, &words).unwrap();
    assert_eq!(first, second);
}

#[test]
fn first_path_found_is_kept() {
    // "AB" is spelled from (0,0) to (0,1) and from (1,0) to (1,1); row-major
    // order reaches the first one first.
    let found = boggle(&strings(&["AB", "AB"]), &strings(&["AB"])).unwrap();
    assert_eq!(found.len(), 1);
    assert_eq!(found[0].1, vec![(0, 0), (0, 1)]);
}

#[test]
fn duplicate_dictionary_words_are_found_once() {
    let found = boggle(&strings(&["AB", "CD"]), &strings(&["AB", "AB"])).unwrap();
    assert_eq!(found.len(), 1);
}

#[test]
fn unknown_board_letters_are_pruned() {
    let found = boggle(&strings(&["QZ", "ZQ"]), &strings(&["AB"])).unwrap();
    assert!(found.is_empty());
}

#[test]
fn solver_joins_words_in_discovery_order() {
    let mut solver = BoggleSolver::new(strings(&["AB", "CD"]), strings(&["AB", "BA", "ABDC", "XYZ"]));
    let s = solver.solve().unwrap();
    assert_eq!(s, "AB, ABDC, BA");
    assert_eq!(solver.results().len(), 3);
}

#[test]
fn solver_refuses_malformed_board() {
    let mut solver = BoggleSolver::new(strings(&["AB", "C"]), strings(&["AB"]));
    assert_eq!(solver.solve(), Err(BoardError::UnequalRows));
    assert!(solver.results().is_empty());
}

#[test]
fn join_of_nothing_is_empty() {
    assert_eq!(join_words(&Vec::new()), "");
}

#[test]
fn search_from_one_cell() {
    let board = Board::from_rows(&strings(&["XY"])).unwrap();
    let words = strings(&["XY", "YX"]);
    let mut helper = BoggleHelper::new(board, &words);
    helper.search((0, 0));
    let found = helper.into_found();
    assert_eq!(found, vec![("XY".to_string(), vec![(0, 0), (0, 1)])]);
}

#[test]
fn board_reads_cells() {
    let board = Board::from_rows(&strings(&["ABC", "DEF"])).unwrap();
    assert_eq!(board.rows(), 2);
    assert_eq!(board.cols(), 3);
    assert_eq!(board.at(1, 2), 'F');
}
