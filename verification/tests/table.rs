use linediff::{edit_distance, memo_min, Direction, EditCell};

fn doc(lines: &[&str]) -> Vec<String> {
    lines.iter().map(|line| line.to_string()).collect()
}

fn letters(word: &str) -> Vec<String> {
    word.chars().map(|c| c.to_string()).collect()
}

fn cell(val: usize, prev: Direction) -> EditCell {
    EditCell { val, prev }
}

/// Edit distance by the textbook recurrence over prefixes.
fn by_prefixes(a: &[String], b: &[String]) -> usize {
    let mut table = vec![vec![0usize; b.len() + 1]; a.len() + 1];
    for i in 0..=a.len() {
        for j in 0..=b.len() {
            table[i][j] = if i == 0 {
                j
            } else if j == 0 {
                i
            } else {
                let replace = table[i - 1][j - 1] + if a[i - 1] == b[j - 1] { 0 } else { 1 };
                replace.min(table[i - 1][j] + 1).min(table[i][j - 1] + 1)
            };
        }
    }
    table[a.len()][b.len()]
}

/// Every document of at most `longest` lines, each line "a" or "b".
fn small_documents(longest: usize) -> Vec<Vec<String>> {
    let mut all: Vec<Vec<String>> = vec![Vec::new()];
    let mut last: Vec<Vec<String>> = vec![Vec::new()];
    for _ in 0..longest {
        let mut next = Vec::new();
        for d in &last {
            for line in ["a", "b"] {
                let mut longer = d.clone();
                longer.push(line.to_string());
                next.push(longer);
            }
        }
        all.extend(next.iter().cloned());
        last = next;
    }
    all
}

#[test]
fn empty_documents_give_a_single_cell() {
    let memo = edit_distance(&doc(&[]), &doc(&[]));
    assert_eq!(memo, vec![vec![cell(0, Direction::NoDirection)]]);
}

#[test]
fn table_has_one_row_and_one_column_more_than_lines() {
    let memo = edit_distance(&doc(&["a", "b", "c"]), &doc(&["x", "y"]));
    assert_eq!(memo.len(), 4);
    for row in &memo {
        assert_eq!(row.len(), 3);
    }
}

#[test]
fn far_border_counts_the_remaining_lines() {
    let memo = edit_distance(&doc(&["a", "b", "c"]), &doc(&["x", "y"]));
    assert_eq!(memo[0][2], cell(3, Direction::NoDirection));
    assert_eq!(memo[1][2], cell(2, Direction::NoDirection));
    assert_eq!(memo[2][2], cell(1, Direction::NoDirection));
    assert_eq!(memo[3][0], cell(2, Direction::NoDirection));
    assert_eq!(memo[3][1], cell(1, Direction::NoDirection));
    assert_eq!(memo[3][2], cell(0, Direction::NoDirection));
}

#[test]
fn equal_lines_cost_nothing_and_point_along_the_diagonal() {
    let memo = edit_distance(&doc(&["a"]), &doc(&["a"]));
    assert_eq!(
        memo,
        vec![
            vec![cell(0, Direction::DownRight), cell(1, Direction::NoDirection)],
            vec![cell(1, Direction::NoDirection), cell(0, Direction::NoDirection)],
        ]
    );
}

#[test]
fn unequal_lines_cost_one_more_than_the_cheapest_neighbour() {
    let memo = edit_distance(&doc(&["a"]), &doc(&["b"]));
    assert_eq!(
        memo,
        vec![
            vec![cell(1, Direction::DownRight), cell(1, Direction::NoDirection)],
            vec![cell(1, Direction::NoDirection), cell(0, Direction::NoDirection)],
        ]
    );
}

#[test]
fn whole_table_of_a_mixed_case() {
    let memo = edit_distance(&doc(&["a", "b", "c"]), &doc(&["a", "x", "c"]));
    let border = Direction::NoDirection;
    assert_eq!(
        memo,
        vec![
            vec![
                cell(1, Direction::DownRight),
                cell(2, Direction::DownRight),
                cell(2, Direction::Down),
                cell(3, border),
            ],
            vec![
                cell(2, Direction::Right),
                cell(1, Direction::DownRight),
                cell(1, Direction::Down),
                cell(2, border),
            ],
            vec![
                cell(2, Direction::Right),
                cell(1, Direction::Right),
                cell(0, Direction::DownRight),
                cell(1, border),
            ],
            vec![cell(3, border), cell(2, border), cell(1, border), cell(0, border)],
        ]
    );
}

#[test]
fn first_cell_is_the_edit_distance_of_known_pairs() {
    let pairs = [
        ("kitten", "sitting", 3),
        ("flaw", "lawn", 2),
        ("intention", "execution", 5),
        ("sunday", "saturday", 3),
        ("", "abc", 3),
        ("abc", "", 3),
        ("abc", "abc", 0),
        ("abc", "xyz", 3),
    ];
    for (from, to, expected) in pairs {
        let memo = edit_distance(&letters(from), &letters(to));
        assert_eq!(memo[0][0].val, expected, "{from} -> {to}");
    }
}

#[test]
fn first_cell_agrees_with_the_recurrence_over_prefixes() {
    let documents = small_documents(4);
    for a in &documents {
        for b in &documents {
            let memo = edit_distance(a, b);
            assert_eq!(memo[0][0].val, by_prefixes(a, b), "{a:?} -> {b:?}");
        }
    }
}

#[test]
fn every_cell_is_the_distance_of_the_two_remainders() {
    let a = letters("intention");
    let b = letters("execution");
    let memo = edit_distance(&a, &b);
    for i in 0..=a.len() {
        for j in 0..=b.len() {
            assert_eq!(memo[i][j].val, by_prefixes(&a[i..], &b[j..]), "cell ({i}, {j})");
        }
    }
}

#[test]
fn distance_is_at_most_the_longer_document() {
    let documents = small_documents(4);
    for a in &documents {
        for b in &documents {
            let memo = edit_distance(a, b);
            assert!(memo[0][0].val <= a.len().max(b.len()));
        }
    }
}

#[test]
fn tie_between_right_and_diagonal_goes_right() {
    let memo = edit_distance(&doc(&["a"]), &doc(&["b", "c"]));
    assert_eq!(memo[0][1], cell(1, Direction::DownRight));
    assert_eq!(memo[1][1], cell(1, Direction::NoDirection));
    assert_eq!(memo[0][0], cell(2, Direction::Right));
}

#[test]
fn tie_between_diagonal_and_below_goes_diagonal() {
    let memo = edit_distance(&doc(&["a", "c"]), &doc(&["b"]));
    assert_eq!(memo[0][1], cell(2, Direction::NoDirection));
    assert_eq!(memo[1][1], cell(1, Direction::NoDirection));
    assert_eq!(memo[1][0], cell(1, Direction::DownRight));
    assert_eq!(memo[0][0], cell(2, Direction::DownRight));
}

#[test]
fn below_is_taken_only_when_strictly_cheapest() {
    let memo = edit_distance(&doc(&["a", "b", "c"]), &doc(&["a", "x", "c"]));
    assert_eq!(memo[1][3].val, 2);
    assert_eq!(memo[2][3].val, 1);
    assert_eq!(memo[2][2].val, 0);
    assert_eq!(memo[1][2], cell(1, Direction::Down));
}

fn neighbours(right: usize, diagonal: usize, down: usize) -> Vec<Vec<EditCell>> {
    let blank = Direction::NoDirection;
    vec![vec![cell(9, blank), cell(right, blank)], vec![cell(down, blank), cell(diagonal, blank)]]
}

#[test]
fn memo_min_takes_the_least_neighbour() {
    assert_eq!(memo_min(&neighbours(1, 2, 3), &0, &0), (1, Direction::Right));
    assert_eq!(memo_min(&neighbours(3, 1, 2), &0, &0), (1, Direction::DownRight));
    assert_eq!(memo_min(&neighbours(3, 2, 1), &0, &0), (1, Direction::Down));
    assert_eq!(memo_min(&neighbours(2, 3, 1), &0, &0), (1, Direction::Down));
}

#[test]
fn memo_min_breaks_ties_right_then_diagonal_then_down() {
    assert_eq!(memo_min(&neighbours(4, 4, 4), &0, &0), (4, Direction::Right));
    assert_eq!(memo_min(&neighbours(4, 4, 7), &0, &0), (4, Direction::Right));
    assert_eq!(memo_min(&neighbours(4, 7, 4), &0, &0), (4, Direction::Right));
    assert_eq!(memo_min(&neighbours(7, 4, 4), &0, &0), (4, Direction::DownRight));
}

#[test]
fn memo_min_reads_the_neighbours_of_the_given_cell() {
    let blank = Direction::NoDirection;
    let memo = vec![
        vec![cell(0, blank), cell(0, blank), cell(0, blank)],
        vec![cell(0, blank), cell(0, blank), cell(5, blank)],
        vec![cell(0, blank), cell(6, blank), cell(8, blank)],
    ];
    assert_eq!(memo_min(&memo, &1, &1), (5, Direction::Right));
}

#[test]
fn building_twice_gives_the_same_table() {
    let a = letters("intention");
    let b = letters("execution");
    assert_eq!(edit_distance(&a, &b), edit_distance(&a, &b));
}
