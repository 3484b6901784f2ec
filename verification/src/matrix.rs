//! The cost table of the edit distance and the cells it is made of.

use vstd::prelude::*;

verus! {

/// The neighbour a cell took its cost from.
#[derive(Debug, Clone, Copy, PartialEq, Eq, Structural)]
pub enum Direction {
    /// The cell below: the line of the first document is deleted.
    Down,
    /// The cell to the right: the line of the second document is inserted.
    Right,
    /// The cell below and to the right: one line of each document is consumed.
    DownRight,
    /// No neighbour: the cell lies on the far border.
    NoDirection,
}

/// One cell of the cost table.
#[derive(Debug, Clone, Copy, PartialEq, Eq, Structural)]
pub struct EditCell {
    /// Least number of edits that turn the rest of the first document into
    /// the rest of the second.
    pub val: usize,
    /// The neighbour that this cost was taken from.
    pub prev: Direction,
}

/// The least of three costs.
pub open spec fn min3(right: int, diagonal: int, down: int) -> int {
    if right <= diagonal && right <= down {
        right
    } else if diagonal <= down {
        diagonal
    } else {
        down
    }
}

/// The neighbour that holds the least of three costs. Among equal costs the
/// right neighbour goes before the diagonal one, and the diagonal one before
/// the one below.
pub open spec fn cheapest(right: int, diagonal: int, down: int) -> Direction {
    if right <= diagonal && right <= down {
        Direction::Right
    } else if diagonal <= down {
        Direction::DownRight
    } else {
        Direction::Down
    }
}

/// The least cost among the three forward neighbours of `(row, col)`, and
/// the neighbour that holds it.
pub fn memo_min(memo: &Vec<Vec<EditCell>>, row: &usize, col: &usize) -> (least: (usize, Direction))
    requires
        *row + 1 < memo.len(),
        *col + 1 < memo[*row as int].len(),
        *col + 1 < memo[*row + 1].len(),
    ensures
        least.0 == min3(
            memo[*row as int][*col + 1].val as int,
            memo[*row + 1][*col + 1].val as int,
            memo[*row + 1][*col as int].val as int,
        ),
        least.1 == cheapest(
            memo[*row as int][*col + 1].val as int,
            memo[*row + 1][*col + 1].val as int,
            memo[*row + 1][*col as int].val as int,
        ),
{
    let right: usize = memo[*row][*col + 1].val;
    let down_right: usize = memo[*row + 1][*col + 1].val;
    let down: usize = memo[*row + 1][*col].val;

    if right <= down_right && right <= down {
        (right, Direction::Right)
    } else if down_right <= down {
        (down_right, Direction::DownRight)
    } else {
        (down, Direction::Down)
    }
}

/// The documents as the contracts see them: each line by its characters.
pub open spec fn lines(file: &Vec<String>) -> Seq<Seq<char>> {
    file.deep_view()
}

/// The table as the contracts see it: its rows, each a sequence of cells.
pub open spec fn grid(memo: &Vec<Vec<EditCell>>) -> Seq<Seq<EditCell>> {
    Seq::new(memo@.len(), |i: int| memo@[i]@)
}

/// Least number of edits (a line inserted, deleted or replaced) that turn
/// the lines of `a` from `i` on into the lines of `b` from `j` on.
pub open spec fn distance(a: Seq<Seq<char>>, b: Seq<Seq<char>>, i: int, j: int) -> int
    decreases a.len() - i + b.len() - j,
{
    if i < 0 || j < 0 || i > a.len() || j > b.len() {
        0
    } else if i == a.len() {
        b.len() - j
    } else if j == b.len() {
        a.len() - i
    } else if a[i] == b[j] {
        distance(a, b, i + 1, j + 1)
    } else {
        1 + min3(
            distance(a, b, i, j + 1),
            distance(a, b, i + 1, j + 1),
            distance(a, b, i + 1, j),
        )
    }
}

/// The neighbour that cell `(i, j)` takes its cost from: none on the far
/// border, the diagonal one where the two lines are equal, else the
/// cheapest of the three.
pub open spec fn origin(a: Seq<Seq<char>>, b: Seq<Seq<char>>, i: int, j: int) -> Direction {
    if !(0 <= i < a.len() && 0 <= j < b.len()) {
        Direction::NoDirection
    } else if a[i] == b[j] {
        Direction::DownRight
    } else {
        cheapest(
            distance(a, b, i, j + 1),
            distance(a, b, i + 1, j + 1),
            distance(a, b, i + 1, j),
        )
    }
}

/// `g` has one row more than `a` has lines, and each row one cell more than
/// `b` has lines.
pub open spec fn has_shape(g: Seq<Seq<EditCell>>, a: Seq<Seq<char>>, b: Seq<Seq<char>>) -> bool {
    &&& g.len() == a.len() + 1
    &&& forall|i: int| 0 <= i <= a.len() ==> (#[trigger] g[i]).len() == b.len() + 1
}

/// Cell `(i, j)` of `g` holds the distance and the origin of `(i, j)`.
pub open spec fn cell_done(
    g: Seq<Seq<EditCell>>,
    a: Seq<Seq<char>>,
    b: Seq<Seq<char>>,
    i: int,
    j: int,
) -> bool {
    &&& g[i][j].val == distance(a, b, i, j)
    &&& g[i][j].prev == origin(a, b, i, j)
}

/// `g` is the cost table of `a` and `b`: it has their shape, and every cell
/// holds its distance and its origin.
pub open spec fn is_cost_matrix(
    g: Seq<Seq<EditCell>>,
    a: Seq<Seq<char>>,
    b: Seq<Seq<char>>,
) -> bool {
    &&& has_shape(g, a, b)
    &&& forall|i: int, j: int|
        0 <= i <= a.len() && 0 <= j <= b.len() ==> #[trigger] cell_done(g, a, b, i, j)
}

/// A distance is never negative and never more than the longer of the two
/// remainders.
pub proof fn lemma_distance_bounds(a: Seq<Seq<char>>, b: Seq<Seq<char>>, i: int, j: int)
    requires
        0 <= i <= a.len(),
        0 <= j <= b.len(),
    ensures
        0 <= distance(a, b, i, j),
        distance(a, b, i, j) <= a.len() - i || distance(a, b, i, j) <= b.len() - j,
    decreases a.len() - i + b.len() - j,
{
    if i < a.len() && j < b.len() {
        lemma_distance_bounds(a, b, i + 1, j + 1);
        if a[i] != b[j] {
            lemma_distance_bounds(a, b, i, j + 1);
            lemma_distance_bounds(a, b, i + 1, j);
        }
    }
}

/// The rows from `from` down hold their distances and origins, and so do the
/// last cells of the rows above.
spec fn rows_done(
    g: Seq<Seq<EditCell>>,
    a: Seq<Seq<char>>,
    b: Seq<Seq<char>>,
    from: int,
) -> bool {
    &&& has_shape(g, a, b)
    &&& forall|i: int, j: int|
        from <= i <= a.len() && 0 <= j <= b.len() ==> #[trigger] cell_done(g, a, b, i, j)
    &&& forall|i: int| 0 <= i < from ==> #[trigger] cell_done(g, a, b, i, b.len() as int)
}

/// As `rows_done` for the rows below `row`; of row `row` itself the cells
/// from `from` on are done.
spec fn row_partly_done(
    g: Seq<Seq<EditCell>>,
    a: Seq<Seq<char>>,
    b: Seq<Seq<char>>,
    row: int,
    from: int,
) -> bool {
    &&& rows_done(g, a, b, row + 1)
    &&& forall|j: int| from <= j <= b.len() ==> #[trigger] cell_done(g, a, b, row, j)
}

/// Builds the cost table of two documents: one row more than `file_a` has
/// lines, one column more than `file_b` has. Cell `(i, j)` holds the edit
/// distance between the lines of `file_a` from `i` on and those of `file_b`
/// from `j` on, and the neighbour that this distance was taken from.
pub fn edit_distance(file_a: &Vec<String>, file_b: &Vec<String>) -> (memo: Vec<Vec<EditCell>>)
    requires
        file_a.len() < usize::MAX,
        file_b.len() < usize::MAX,
    ensures
        is_cost_matrix(grid(&memo), lines(file_a), lines(file_b)),
{
    let n: usize = file_a.len();
    let m: usize = file_b.len();
    let ghost a = lines(file_a);
    let ghost b = lines(file_b);
    let blank = EditCell { val: 0, prev: Direction::NoDirection };

    let mut memo: Vec<Vec<EditCell>> = Vec::new();
    let mut filled: usize = 0;
    while filled < n + 1
        invariant
            n < usize::MAX,
            m < usize::MAX,
            filled <= n + 1,
            memo.len() == filled,
            forall|i: int| 0 <= i < filled ==> (#[trigger] memo[i]).len() == m + 1,
            forall|i: int, j: int|
                0 <= i < filled && 0 <= j <= m ==> (#[trigger] memo[i][j]) == blank,
        decreases n + 1 - filled,
    {
        memo.push(vec![blank; m + 1]);
        filled += 1;
    }

    let mut row: usize = 0;
    while row < n
        invariant
            n == a.len(),
            m == b.len(),
            row <= n,
            memo.len() == n + 1,
            forall|i: int| 0 <= i <= n ==> (#[trigger] memo[i]).len() == m + 1,
            forall|i: int| 0 <= i < row ==> #[trigger] cell_done(grid(&memo), a, b, i, m as int),
            memo[n as int][m as int] == blank,
        decreases n - row,
    {
        let ghost before = grid(&memo);
        memo[row][m] = EditCell { val: n - row, prev: Direction::NoDirection };
        proof {
            let after = grid(&memo);
            assert forall|i: int| 0 <= i < row + 1 implies #[trigger] cell_done(
                after,
                a,
                b,
                i,
                m as int,
            ) by {
                if i < row {
                    assert(cell_done(before, a, b, i, m as int));
                }
            }
        }
        row += 1;
    }

    let mut col: usize = 0;
    while col < m
        invariant
            n == a.len(),
            m == b.len(),
            col <= m,
            memo.len() == n + 1,
            forall|i: int| 0 <= i <= n ==> (#[trigger] memo[i]).len() == m + 1,
            forall|i: int| 0 <= i < n ==> #[trigger] cell_done(grid(&memo), a, b, i, m as int),
            forall|j: int| 0 <= j < col ==> #[trigger] cell_done(grid(&memo), a, b, n as int, j),
            memo[n as int][m as int] == blank,
        decreases m - col,
    {
        let ghost before = grid(&memo);
        memo[n][col] = EditCell { val: m - col, prev: Direction::NoDirection };
        proof {
            let after = grid(&memo);
            assert forall|i: int| 0 <= i < n implies #[trigger] cell_done(
                after,
                a,
                b,
                i,
                m as int,
            ) by {
                assert(cell_done(before, a, b, i, m as int));
            }
            assert forall|j: int| 0 <= j < col + 1 implies #[trigger] cell_done(
                after,
                a,
                b,
                n as int,
                j,
            ) by {
                if j < col {
                    assert(cell_done(before, a, b, n as int, j));
                }
            }
        }
        col += 1;
    }
    assert(rows_done(grid(&memo), a, b, n as int)) by {
        let g = grid(&memo);
        assert forall|i: int, j: int| n <= i <= a.len() && 0 <= j <= b.len() implies #[trigger] cell_done(
            g, a, b, i, j) by {}
    }

    let mut row: usize = n;
    while row > 0
        invariant
            n == a.len(),
            m == b.len(),
            n < usize::MAX,
            m < usize::MAX,
            a == lines(file_a),
            b == lines(file_b),
            row <= n,
            memo.len() == n + 1,
            forall|i: int| 0 <= i <= n ==> (#[trigger] memo[i]).len() == m + 1,
            rows_done(grid(&memo), a, b, row as int),
        decreases row,
    {
        row -= 1;
        let mut col: usize = m;
        assert(row_partly_done(grid(&memo), a, b, row as int, m as int));
        while col > 0
            invariant
                n == a.len(),
                m == b.len(),
                n < usize::MAX,
                m < usize::MAX,
                a == lines(file_a),
                b == lines(file_b),
                row < n,
                col <= m,
                memo.len() == n + 1,
                forall|i: int| 0 <= i <= n ==> (#[trigger] memo[i]).len() == m + 1,
                row_partly_done(grid(&memo), a, b, row as int, col as int),
            decreases col,
        {
            col -= 1;
            let ghost before = grid(&memo);
            proof {
                assert(cell_done(before, a, b, row as int, col + 1));
                assert(cell_done(before, a, b, row + 1, col + 1));
                assert(cell_done(before, a, b, row + 1, col as int));
                lemma_distance_bounds(a, b, row as int, col as int);
            }
            if file_a[row].eq(&file_b[col]) {
                let below: usize = memo[row + 1][col + 1].val;
                memo[row][col] = EditCell { val: below, prev: Direction::DownRight };
            } else {
                let (min_value, direction) = memo_min(&memo, &row, &col);
                memo[row][col] = EditCell { val: min_value + 1, prev: direction };
            }
            proof {
                let after = grid(&memo);
                assert(has_shape(after, a, b));
                assert(cell_done(after, a, b, row as int, col as int));
                assert forall|i: int, j: int|
                    row + 1 <= i <= a.len() && 0 <= j <= b.len() implies #[trigger] cell_done(
                    after,
                    a,
                    b,
                    i,
                    j,
                ) by {
                    assert(cell_done(before, a, b, i, j));
                }
                assert forall|i: int| 0 <= i < row + 1 implies #[trigger] cell_done(
                    after,
                    a,
                    b,
                    i,
                    b.len() as int,
                ) by {
                    assert(cell_done(before, a, b, i, b.len() as int));
                }
                assert forall|j: int| col <= j <= b.len() implies #[trigger] cell_done(
                    after,
                    a,
                    b,
                    row as int,
                    j,
                ) by {
                    if j > col {
                        assert(cell_done(before, a, b, row as int, j));
                    }
                }
            }
        }
        proof {
            let g = grid(&memo);
            assert forall|i: int, j: int|
                row <= i <= a.len() && 0 <= j <= b.len() implies #[trigger] cell_done(
                g,
                a,
                b,
                i,
                j,
            ) by {}
            assert forall|i: int| 0 <= i < row implies #[trigger] cell_done(
                g,
                a,
                b,
                i,
                b.len() as int,
            ) by {}
        }
    }
    memo
}

} // verus!
