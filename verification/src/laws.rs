//! What holds of the cost table and of the scripts read off it.

use vstd::prelude::*;
use crate::matrix::{cell_done, distance, is_cost_matrix, Direction, EditCell};
use crate::script::{cost, drain, source, step, target, walk, Edit};

verus! {

/// `script` turns the document `a` into the document `b`.
pub open spec fn transforms(script: Seq<Edit>, a: Seq<Seq<char>>, b: Seq<Seq<char>>) -> bool {
    source(script) == a && target(script) == b
}

/// Dropping the first line of either document changes the distance by one at
/// most, and dropping the first line of both raises it by one at most.
pub proof fn lemma_distance_step(a: Seq<Seq<char>>, b: Seq<Seq<char>>, i: int, j: int)
    requires
        0 <= i <= a.len(),
        0 <= j <= b.len(),
    ensures
        j < b.len() ==> distance(a, b, i, j) - 1 <= distance(a, b, i, j + 1) <= distance(a, b, i, j)
            + 1,
        i < a.len() ==> distance(a, b, i, j) - 1 <= distance(a, b, i + 1, j) <= distance(a, b, i, j)
            + 1,
        i < a.len() && j < b.len() ==> distance(a, b, i, j) <= distance(a, b, i + 1, j + 1) + 1,
    decreases a.len() - i + b.len() - j,
{
    if i < a.len() {
        lemma_distance_step(a, b, i + 1, j);
    }
    if j < b.len() {
        lemma_distance_step(a, b, i, j + 1);
    }
    if i < a.len() && j < b.len() {
        lemma_distance_step(a, b, i + 1, j + 1);
    }
}

/// A script that starts with `first` and goes on with `rest` takes, gives and
/// costs what `first` does, then what `rest` does.
pub proof fn lemma_script_cons(first: Edit, rest: Seq<Edit>)
    ensures
        source(seq![first] + rest) == first.taken() + source(rest),
        target(seq![first] + rest) == first.given() + target(rest),
        cost(seq![first] + rest) == first.price() + cost(rest),
{
    let script = seq![first] + rest;
    assert(script[0] == first);
    assert(script.skip(1) =~= rest);
}

/// No script costs less than nothing.
pub proof fn lemma_cost_not_negative(script: Seq<Edit>)
    ensures
        0 <= cost(script),
    decreases script.len(),
{
    if script.len() > 0 {
        lemma_cost_not_negative(script.skip(1));
    }
}

/// A script from the lines of `a` from `i` on to the lines of `b` from `j` on
/// costs at least their distance.
pub proof fn lemma_script_costs_at_least(
    a: Seq<Seq<char>>,
    b: Seq<Seq<char>>,
    i: int,
    j: int,
    script: Seq<Edit>,
)
    requires
        0 <= i <= a.len(),
        0 <= j <= b.len(),
        transforms(script, a.skip(i), b.skip(j)),
    ensures
        distance(a, b, i, j) <= cost(script),
    decreases script.len(),
{
    let from = a.skip(i);
    let to = b.skip(j);
    if script.len() == 0 {
        assert(from.len() == 0 && to.len() == 0);
    } else {
        let first = script[0];
        let rest = script.skip(1);
        lemma_distance_step(a, b, i, j);
        lemma_cost_not_negative(rest);
        assert(from == first.taken() + source(rest));
        assert(to == first.given() + target(rest));
        if first.taken().len() == 1 {
            assert(from.len() == 1 + source(rest).len());
            assert(from[0] == first.taken()[0]);
            assert forall|k: int| 0 <= k < source(rest).len() implies source(rest)[k] == a.skip(
                i + 1,
            )[k] by {
                assert(from[k + 1] == source(rest)[k]);
            }
            assert(source(rest) =~= a.skip(i + 1));
        } else {
            assert(source(rest) =~= a.skip(i));
        }
        if first.given().len() == 1 {
            assert(to.len() == 1 + target(rest).len());
            assert(to[0] == first.given()[0]);
            assert forall|k: int| 0 <= k < target(rest).len() implies target(rest)[k] == b.skip(
                j + 1,
            )[k] by {
                assert(to[k + 1] == target(rest)[k]);
            }
            assert(target(rest) =~= b.skip(j + 1));
        } else {
            assert(target(rest) =~= b.skip(j));
        }
        match first {
            Edit::Unchanged(_) => {
                lemma_script_costs_at_least(a, b, i + 1, j + 1, rest);
            },
            Edit::Updated(_, _) => {
                lemma_script_costs_at_least(a, b, i + 1, j + 1, rest);
            },
            Edit::Deleted(_) => {
                lemma_script_costs_at_least(a, b, i + 1, j, rest);
            },
            Edit::Inserted(_) => {
                lemma_script_costs_at_least(a, b, i, j + 1, rest);
            },
        }
    }
}

/// Draining from `(i, j)` deletes the rest of `a`, inserts the rest of `b`,
/// and costs one for each of those lines.
pub proof fn lemma_drain_is_script(a: Seq<Seq<char>>, b: Seq<Seq<char>>, i: int, j: int)
    requires
        0 <= i <= a.len(),
        0 <= j <= b.len(),
    ensures
        transforms(drain(a, b, i, j), a.skip(i), b.skip(j)),
        cost(drain(a, b, i, j)) == (a.len() - i) + (b.len() - j),
    decreases a.len() - i + b.len() - j,
{
    let d = drain(a, b, i, j);
    if i < a.len() {
        let rest = drain(a, b, i + 1, j);
        lemma_drain_is_script(a, b, i + 1, j);
        assert(d =~= seq![Edit::Deleted(a[i])] + rest);
        lemma_script_cons(Edit::Deleted(a[i]), rest);
        assert(seq![a[i]] + a.skip(i + 1) =~= a.skip(i));
        assert(Seq::<Seq<char>>::empty() + b.skip(j) =~= b.skip(j));
    } else if j < b.len() {
        let rest = drain(a, b, i, j + 1);
        lemma_drain_is_script(a, b, i, j + 1);
        assert(d =~= seq![Edit::Inserted(b[j])] + rest);
        lemma_script_cons(Edit::Inserted(b[j]), rest);
        assert(seq![b[j]] + b.skip(j + 1) =~= b.skip(j));
        assert(Seq::<Seq<char>>::empty() + a.skip(i) =~= a.skip(i));
    } else {
        assert(d =~= Seq::<Edit>::empty());
        assert(a.skip(i) =~= Seq::<Seq<char>>::empty());
        assert(b.skip(j) =~= Seq::<Seq<char>>::empty());
    }
}

/// The script read off a cost table from `(i, j)` on turns the lines of `a`
/// from `i` on into the lines of `b` from `j` on.
pub proof fn lemma_walk_is_script(
    g: Seq<Seq<EditCell>>,
    a: Seq<Seq<char>>,
    b: Seq<Seq<char>>,
    i: int,
    j: int,
)
    requires
        is_cost_matrix(g, a, b),
        0 <= i <= a.len(),
        0 <= j <= b.len(),
    ensures
        transforms(walk(g, a, b, i, j), a.skip(i), b.skip(j)),
    decreases a.len() - i + b.len() - j,
{
    assert(cell_done(g, a, b, i, j));
    if i < a.len() && j < b.len() {
        let first = step(g, a, b, i, j);
        assert(cell_done(g, a, b, i + 1, j + 1));
        assert(seq![a[i]] + a.skip(i + 1) =~= a.skip(i));
        assert(seq![b[j]] + b.skip(j + 1) =~= b.skip(j));
        assert(Seq::<Seq<char>>::empty() + a.skip(i) =~= a.skip(i));
        assert(Seq::<Seq<char>>::empty() + b.skip(j) =~= b.skip(j));
        match g[i][j].prev {
            Direction::Down => {
                lemma_walk_is_script(g, a, b, i + 1, j);
                lemma_script_cons(first, walk(g, a, b, i + 1, j));
                assert(first.taken() =~= seq![a[i]]);
                assert(first.given() =~= Seq::<Seq<char>>::empty());
            },
            Direction::Right => {
                lemma_walk_is_script(g, a, b, i, j + 1);
                lemma_script_cons(first, walk(g, a, b, i, j + 1));
                assert(first.taken() =~= Seq::<Seq<char>>::empty());
                assert(first.given() =~= seq![b[j]]);
            },
            _ => {
                lemma_walk_is_script(g, a, b, i + 1, j + 1);
                lemma_script_cons(first, walk(g, a, b, i + 1, j + 1));
                assert(first.taken() =~= seq![a[i]]);
                assert(first.given() =~= seq![b[j]]);
            },
        }
    } else {
        lemma_drain_is_script(a, b, i, j);
    }
}

/// The script read off a cost table from `(i, j)` on costs the distance that
/// cell `(i, j)` holds.
pub proof fn lemma_walk_costs_distance(
    g: Seq<Seq<EditCell>>,
    a: Seq<Seq<char>>,
    b: Seq<Seq<char>>,
    i: int,
    j: int,
)
    requires
        is_cost_matrix(g, a, b),
        0 <= i <= a.len(),
        0 <= j <= b.len(),
    ensures
        cost(walk(g, a, b, i, j)) == distance(a, b, i, j),
    decreases a.len() - i + b.len() - j,
{
    assert(cell_done(g, a, b, i, j));
    if i < a.len() && j < b.len() {
        let first = step(g, a, b, i, j);
        assert(cell_done(g, a, b, i + 1, j + 1));
        match g[i][j].prev {
            Direction::Down => {
                lemma_walk_costs_distance(g, a, b, i + 1, j);
                lemma_script_cons(first, walk(g, a, b, i + 1, j));
            },
            Direction::Right => {
                lemma_walk_costs_distance(g, a, b, i, j + 1);
                lemma_script_cons(first, walk(g, a, b, i, j + 1));
            },
            Direction::DownRight => {
                lemma_walk_costs_distance(g, a, b, i + 1, j + 1);
                lemma_script_cons(first, walk(g, a, b, i + 1, j + 1));
            },
            Direction::NoDirection => {},
        }
    } else {
        lemma_drain_is_script(a, b, i, j);
    }
}

/// The first cell of a cost table holds the edit distance of the two
/// documents: the script read off the table turns the first document into
/// the second at that cost, and no script that does so costs less.
pub proof fn lemma_first_cell_is_edit_distance(
    g: Seq<Seq<EditCell>>,
    a: Seq<Seq<char>>,
    b: Seq<Seq<char>>,
)
    requires
        is_cost_matrix(g, a, b),
    ensures
        g[0][0].val == distance(a, b, 0, 0),
        transforms(walk(g, a, b, 0, 0), a, b),
        cost(walk(g, a, b, 0, 0)) == g[0][0].val,
        forall|script: Seq<Edit>| #[trigger] transforms(script, a, b) ==> g[0][0].val <= cost(script),
{
    assert(cell_done(g, a, b, 0, 0));
    assert(a.skip(0) =~= a);
    assert(b.skip(0) =~= b);
    lemma_walk_is_script(g, a, b, 0, 0);
    lemma_walk_costs_distance(g, a, b, 0, 0);
    assert forall|script: Seq<Edit>| #[trigger] transforms(script, a, b) implies g[0][0].val
        <= cost(script) by {
        lemma_script_costs_at_least(a, b, 0, 0, script);
    }
}

/// The script read off the cost table of a document and itself, from the
/// cell `(i, i)` on, leaves every remaining line unchanged.
pub proof fn lemma_same_from(g: Seq<Seq<EditCell>>, a: Seq<Seq<char>>, i: int)
    requires
        is_cost_matrix(g, a, a),
        0 <= i <= a.len(),
    ensures
        walk(g, a, a, i, i) == Seq::new((a.len() - i) as nat, |k: int| Edit::Unchanged(a[i + k])),
    decreases a.len() - i,
{
    let all = Seq::new((a.len() - i) as nat, |k: int| Edit::Unchanged(a[i + k]));
    if i < a.len() {
        assert(cell_done(g, a, a, i, i));
        assert(cell_done(g, a, a, i + 1, i + 1));
        lemma_same_from(g, a, i + 1);
        assert(walk(g, a, a, i, i) =~= all);
    } else {
        assert(walk(g, a, a, i, i) =~= all);
    }
}

/// Identity: where the two documents are equal, the script read off their
/// cost table has one operation for each line, in order, and each leaves its
/// line unchanged.
pub proof fn lemma_identity(g: Seq<Seq<EditCell>>, a: Seq<Seq<char>>, b: Seq<Seq<char>>)
    requires
        a == b,
        is_cost_matrix(g, a, b),
    ensures
        walk(g, a, b, 0, 0) == Seq::new(a.len(), |k: int| Edit::Unchanged(a[k])),
{
    lemma_same_from(g, a, 0);
    assert(walk(g, a, b, 0, 0) =~= Seq::new(a.len(), |k: int| Edit::Unchanged(a[k])));
}

/// Two documents have one cost table, and so one script and one result
/// however often they are compared.
pub proof fn lemma_cost_matrix_is_unique(
    g1: Seq<Seq<EditCell>>,
    g2: Seq<Seq<EditCell>>,
    a: Seq<Seq<char>>,
    b: Seq<Seq<char>>,
)
    requires
        is_cost_matrix(g1, a, b),
        is_cost_matrix(g2, a, b),
    ensures
        g1 == g2,
        walk(g1, a, b, 0, 0) == walk(g2, a, b, 0, 0),
{
    assert forall|i: int| 0 <= i < g1.len() implies g1[i] =~= g2[i] by {
        assert forall|j: int| 0 <= j < g1[i].len() implies g1[i][j] == g2[i][j] by {
            assert(cell_done(g1, a, b, i, j));
            assert(cell_done(g2, a, b, i, j));
        }
    }
    assert(g1 =~= g2);
}

/// The cell at which the walk from `(i, j)` stops reading the table and
/// starts to drain.
pub open spec fn exit_cell(
    g: Seq<Seq<EditCell>>,
    a: Seq<Seq<char>>,
    b: Seq<Seq<char>>,
    i: int,
    j: int,
) -> (int, int)
    decreases a.len() - i + b.len() - j,
{
    if 0 <= i < a.len() && 0 <= j < b.len() {
        match g[i][j].prev {
            Direction::Down => exit_cell(g, a, b, i + 1, j),
            Direction::Right => exit_cell(g, a, b, i, j + 1),
            Direction::DownRight => exit_cell(g, a, b, i + 1, j + 1),
            Direction::NoDirection => (i, j),
        }
    } else {
        (i, j)
    }
}

/// The walk ends with the drain from its exit cell: the lines of `a` that are
/// left there, deleted in order, then those of `b`, inserted in order.
pub proof fn lemma_walk_ends_with_drain(
    g: Seq<Seq<EditCell>>,
    a: Seq<Seq<char>>,
    b: Seq<Seq<char>>,
    i: int,
    j: int,
)
    requires
        0 <= i <= a.len(),
        0 <= j <= b.len(),
    ensures
        ({
            let (row, col) = exit_cell(g, a, b, i, j);
            let whole = walk(g, a, b, i, j);
            let tail = drain(a, b, row, col);
            &&& i <= row <= a.len()
            &&& j <= col <= b.len()
            &&& tail.len() == (a.len() - row) + (b.len() - col)
            &&& tail.len() <= whole.len()
            &&& whole.skip(whole.len() - tail.len()) == tail
        }),
    decreases a.len() - i + b.len() - j,
{
    let (row, col) = exit_cell(g, a, b, i, j);
    let whole = walk(g, a, b, i, j);
    let tail = drain(a, b, row, col);
    if i < a.len() && j < b.len() && g[i][j].prev != Direction::NoDirection {
        let first = seq![step(g, a, b, i, j)];
        match g[i][j].prev {
            Direction::Down => {
                lemma_walk_ends_with_drain(g, a, b, i + 1, j);
                let rest = walk(g, a, b, i + 1, j);
                assert((first + rest).skip(whole.len() - tail.len()) =~= rest.skip(
                    rest.len() - tail.len(),
                ));
            },
            Direction::Right => {
                lemma_walk_ends_with_drain(g, a, b, i, j + 1);
                let rest = walk(g, a, b, i, j + 1);
                assert((first + rest).skip(whole.len() - tail.len()) =~= rest.skip(
                    rest.len() - tail.len(),
                ));
            },
            _ => {
                lemma_walk_ends_with_drain(g, a, b, i + 1, j + 1);
                let rest = walk(g, a, b, i + 1, j + 1);
                assert((first + rest).skip(whole.len() - tail.len()) =~= rest.skip(
                    rest.len() - tail.len(),
                ));
            },
        }
    } else {
        assert(whole.skip(0) =~= whole);
    }
}

/// In a cost table the walk leaves the table only where one document is used
/// up: what it drains is then the rest of the other, all deleted or all
/// inserted, in the order of the document.
pub proof fn lemma_drain_is_one_sided(
    g: Seq<Seq<EditCell>>,
    a: Seq<Seq<char>>,
    b: Seq<Seq<char>>,
)
    requires
        is_cost_matrix(g, a, b),
    ensures
        ({
            let (row, col) = exit_cell(g, a, b, 0, 0);
            let tail = drain(a, b, row, col);
            &&& row == a.len() || col == b.len()
            &&& row == a.len() ==> tail == Seq::new(
                (b.len() - col) as nat,
                |k: int| Edit::Inserted(b[col + k]),
            )
            &&& col == b.len() ==> tail == Seq::new(
                (a.len() - row) as nat,
                |k: int| Edit::Deleted(a[row + k]),
            )
        }),
{
    let (row, col) = exit_cell(g, a, b, 0, 0);
    let tail = drain(a, b, row, col);
    lemma_exit_on_border(g, a, b, 0, 0);
    if row == a.len() {
        assert(tail =~= Seq::new((b.len() - col) as nat, |k: int| Edit::Inserted(b[col + k])));
    }
    if col == b.len() {
        assert(tail =~= Seq::new((a.len() - row) as nat, |k: int| Edit::Deleted(a[row + k])));
    }
}

/// In a cost table every cell inside the table names a neighbour, so the
/// walk stops reading only on the far border.
pub proof fn lemma_exit_on_border(
    g: Seq<Seq<EditCell>>,
    a: Seq<Seq<char>>,
    b: Seq<Seq<char>>,
    i: int,
    j: int,
)
    requires
        is_cost_matrix(g, a, b),
        0 <= i <= a.len(),
        0 <= j <= b.len(),
    ensures
        exit_cell(g, a, b, i, j).0 == a.len() || exit_cell(g, a, b, i, j).1 == b.len(),
        i <= exit_cell(g, a, b, i, j).0 <= a.len(),
        j <= exit_cell(g, a, b, i, j).1 <= b.len(),
    decreases a.len() - i + b.len() - j,
{
    if i < a.len() && j < b.len() {
        assert(cell_done(g, a, b, i, j));
        match g[i][j].prev {
            Direction::Down => lemma_exit_on_border(g, a, b, i + 1, j),
            Direction::Right => lemma_exit_on_border(g, a, b, i, j + 1),
            _ => lemma_exit_on_border(g, a, b, i + 1, j + 1),
        }
    }
}

} // verus!
