//! Edit scripts, and the walk through a cost table that yields one.

use vstd::prelude::*;
use crate::matrix::{grid, has_shape, lines, Direction, EditCell};

verus! {

/// What becomes of one line, or of one pair of lines.
#[derive(Debug, PartialEq, Eq)]
pub enum EditOperation {
    /// The line stands in both documents.
    Unchanged(String),
    /// The line of the first document is replaced by that of the second.
    Updated(String, String),
    /// The line stands in the first document only.
    Deleted(String),
    /// The line stands in the second document only.
    Inserted(String),
}

/// An edit operation as the contracts see it: each line by its characters.
pub enum Edit {
    /// The line stands in both documents.
    Unchanged(Seq<char>),
    /// The first line is replaced by the second.
    Updated(Seq<char>, Seq<char>),
    /// The line stands in the first document only.
    Deleted(Seq<char>),
    /// The line stands in the second document only.
    Inserted(Seq<char>),
}

impl View for EditOperation {
    type V = Edit;

    open spec fn view(&self) -> Edit {
        match *self {
            EditOperation::Unchanged(line) => Edit::Unchanged(line@),
            EditOperation::Updated(from, to) => Edit::Updated(from@, to@),
            EditOperation::Deleted(line) => Edit::Deleted(line@),
            EditOperation::Inserted(line) => Edit::Inserted(line@),
        }
    }
}

impl Clone for EditOperation {
    fn clone(&self) -> (copy: Self)
        ensures
            copy@ == self@,
    {
        match self {
            EditOperation::Unchanged(line) => EditOperation::Unchanged(line.clone()),
            EditOperation::Updated(from, to) => EditOperation::Updated(from.clone(), to.clone()),
            EditOperation::Deleted(line) => EditOperation::Deleted(line.clone()),
            EditOperation::Inserted(line) => EditOperation::Inserted(line.clone()),
        }
    }
}

impl DeepView for EditOperation {
    type V = Edit;

    open spec fn deep_view(&self) -> Edit {
        self@
    }
}

impl Edit {
    /// The line that the operation takes from the first document, if any.
    pub open spec fn taken(self) -> Seq<Seq<char>> {
        match self {
            Edit::Unchanged(line) => seq![line],
            Edit::Updated(from, _) => seq![from],
            Edit::Deleted(line) => seq![line],
            Edit::Inserted(_) => seq![],
        }
    }

    /// The line that the operation gives to the second document, if any.
    pub open spec fn given(self) -> Seq<Seq<char>> {
        match self {
            Edit::Unchanged(line) => seq![line],
            Edit::Updated(_, to) => seq![to],
            Edit::Deleted(_) => seq![],
            Edit::Inserted(line) => seq![line],
        }
    }

    /// What the operation costs: nothing for a line left as it is, one for
    /// every other.
    pub open spec fn price(self) -> int {
        match self {
            Edit::Unchanged(_) => 0,
            _ => 1,
        }
    }
}

/// The document that a script starts from: the lines it leaves, replaces or
/// deletes, in order.
pub open spec fn source(script: Seq<Edit>) -> Seq<Seq<char>>
    decreases script.len(),
{
    if script.len() == 0 {
        seq![]
    } else {
        script[0].taken() + source(script.skip(1))
    }
}

/// The document that a script arrives at: the lines it leaves, puts in place
/// of others or inserts, in order.
pub open spec fn target(script: Seq<Edit>) -> Seq<Seq<char>>
    decreases script.len(),
{
    if script.len() == 0 {
        seq![]
    } else {
        script[0].given() + target(script.skip(1))
    }
}

/// The number of lines that a script inserts, deletes or replaces.
pub open spec fn cost(script: Seq<Edit>) -> int
    decreases script.len(),
{
    if script.len() == 0 {
        0
    } else {
        script[0].price() + cost(script.skip(1))
    }
}

/// What is left once one of the documents is used up: the rest of `a`
/// deleted, then the rest of `b` inserted.
pub open spec fn drain(a: Seq<Seq<char>>, b: Seq<Seq<char>>, i: int, j: int) -> Seq<Edit> {
    Seq::new((a.len() - i) as nat, |k: int| Edit::Deleted(a[i + k])) + Seq::new(
        (b.len() - j) as nat,
        |k: int| Edit::Inserted(b[j + k]),
    )
}

/// The operation read off cell `(i, j)`, which lies inside the table and
/// names a neighbour: a deletion for the cell below, an insertion for the
/// cell to the right; for the diagonal one a replacement where the cost
/// drops along it, else an unchanged line.
pub open spec fn step(
    g: Seq<Seq<EditCell>>,
    a: Seq<Seq<char>>,
    b: Seq<Seq<char>>,
    i: int,
    j: int,
) -> Edit {
    match g[i][j].prev {
        Direction::Down => Edit::Deleted(a[i]),
        Direction::Right => Edit::Inserted(b[j]),
        Direction::DownRight | Direction::NoDirection => if g[i][j].val > g[i + 1][j + 1].val {
            Edit::Updated(a[i], b[j])
        } else {
            Edit::Unchanged(a[i])
        },
    }
}

/// The script read off the table `g` from cell `(i, j)` on: one operation per
/// cell, each followed to the neighbour it names, until a document is used up
/// or a cell names none; then the rest is drained.
pub open spec fn walk(
    g: Seq<Seq<EditCell>>,
    a: Seq<Seq<char>>,
    b: Seq<Seq<char>>,
    i: int,
    j: int,
) -> Seq<Edit>
    decreases a.len() - i + b.len() - j,
{
    if 0 <= i < a.len() && 0 <= j < b.len() {
        match g[i][j].prev {
            Direction::Down => seq![step(g, a, b, i, j)] + walk(g, a, b, i + 1, j),
            Direction::Right => seq![step(g, a, b, i, j)] + walk(g, a, b, i, j + 1),
            Direction::DownRight => seq![step(g, a, b, i, j)] + walk(g, a, b, i + 1, j + 1),
            Direction::NoDirection => drain(a, b, i, j),
        }
    } else if 0 <= i <= a.len() && 0 <= j <= b.len() {
        drain(a, b, i, j)
    } else {
        seq![]
    }
}

/// Draining starts with the deletion of the next line of `a`, while there is one.
proof fn lemma_drain_deletes_first(a: Seq<Seq<char>>, b: Seq<Seq<char>>, i: int, j: int)
    requires
        0 <= i < a.len(),
        0 <= j <= b.len(),
    ensures
        drain(a, b, i, j) == seq![Edit::Deleted(a[i])] + drain(a, b, i + 1, j),
{
    assert(drain(a, b, i, j) =~= seq![Edit::Deleted(a[i])] + drain(a, b, i + 1, j));
}

/// Once `a` is used up, draining starts with the insertion of the next line
/// of `b`, while there is one.
proof fn lemma_drain_inserts_next(a: Seq<Seq<char>>, b: Seq<Seq<char>>, j: int)
    requires
        0 <= j < b.len(),
    ensures
        drain(a, b, a.len() as int, j) == seq![Edit::Inserted(b[j])] + drain(
            a,
            b,
            a.len() as int,
            j + 1,
        ),
{
    assert(drain(a, b, a.len() as int, j) =~= seq![Edit::Inserted(b[j])] + drain(
        a,
        b,
        a.len() as int,
        j + 1,
    ));
}

/// Reads the edit script off a cost table, starting at its first cell. Each
/// cell inside the table yields one operation and names the cell to go on
/// with; when one document is used up, or a cell names no neighbour, the
/// remaining lines of the first document are deleted and those of the second
/// inserted.
pub fn reconstruct(
    matrix: &Vec<Vec<EditCell>>,
    file_a: &Vec<String>,
    file_b: &Vec<String>,
) -> (ops: Vec<EditOperation>)
    requires
        has_shape(grid(matrix), lines(file_a), lines(file_b)),
    ensures
        ops.deep_view() == walk(grid(matrix), lines(file_a), lines(file_b), 0, 0),
{
    let n: usize = file_a.len();
    let m: usize = file_b.len();
    let ghost g = grid(matrix);
    let ghost a = lines(file_a);
    let ghost b = lines(file_b);
    let ghost whole = walk(g, a, b, 0, 0);

    let mut ops: Vec<EditOperation> = Vec::new();
    let mut row: usize = 0;
    let mut col: usize = 0;
    assert(ops.deep_view() + walk(g, a, b, 0, 0) =~= whole);
    while row < n && col < m
        invariant
            g == grid(matrix),
            a == lines(file_a),
            b == lines(file_b),
            n == a.len(),
            m == b.len(),
            has_shape(g, a, b),
            row <= n,
            col <= m,
            ops.deep_view() + walk(g, a, b, row as int, col as int) == whole,
        ensures
            walk(g, a, b, row as int, col as int) == drain(a, b, row as int, col as int),
        decreases n - row + m - col,
    {
        let ghost done = ops.deep_view();
        let ghost next = step(g, a, b, row as int, col as int);
        assert(g[row as int] == matrix[row as int]@);
        assert(g[row + 1] == matrix[row + 1]@);
        match matrix[row][col].prev {
            Direction::Down => {
                ops.push(EditOperation::Deleted(file_a[row].clone()));
                row += 1;
            },
            Direction::DownRight => {
                if matrix[row][col].val > matrix[row + 1][col + 1].val {
                    ops.push(EditOperation::Updated(file_a[row].clone(), file_b[col].clone()));
                } else {
                    ops.push(EditOperation::Unchanged(file_a[row].clone()));
                }
                row += 1;
                col += 1;
            },
            Direction::Right => {
                ops.push(EditOperation::Inserted(file_b[col].clone()));
                col += 1;
            },
            Direction::NoDirection => {
                break ;
            },
        }
        proof {
            let rest = walk(g, a, b, row as int, col as int);
            assert(ops.deep_view() =~= done + seq![next]);
            assert((done + seq![next]) + rest =~= done + (seq![next] + rest));
        }
    }

    while row < n
        invariant
            a == lines(file_a),
            n == a.len(),
            m == b.len(),
            row <= n,
            col <= m,
            ops.deep_view() + drain(a, b, row as int, col as int) == whole,
        decreases n - row,
    {
        let ghost done = ops.deep_view();
        let ghost next = Edit::Deleted(a[row as int]);
        ops.push(EditOperation::Deleted(file_a[row].clone()));
        proof {
            let rest = drain(a, b, row + 1, col as int);
            lemma_drain_deletes_first(a, b, row as int, col as int);
            assert(ops.deep_view() =~= done + seq![next]);
            assert((done + seq![next]) + rest =~= done + (seq![next] + rest));
        }
        row += 1;
    }

    while col < m
        invariant
            b == lines(file_b),
            m == b.len(),
            row == a.len(),
            col <= m,
            ops.deep_view() + drain(a, b, row as int, col as int) == whole,
        decreases m - col,
    {
        let ghost done = ops.deep_view();
        let ghost next = Edit::Inserted(b[col as int]);
        ops.push(EditOperation::Inserted(file_b[col].clone()));
        proof {
            let rest = drain(a, b, row as int, col + 1);
            lemma_drain_inserts_next(a, b, col as int);
            assert(ops.deep_view() =~= done + seq![next]);
            assert((done + seq![next]) + rest =~= done + (seq![next] + rest));
        }
        col += 1;
    }
    assert(ops.deep_view() =~= ops.deep_view() + drain(a, b, row as int, col as int));
    ops
}

} // verus!
