//! The textual report: one block of lines per edit operation.

use vstd::prelude::*;
use crate::matrix::{grid, has_shape, lines, EditCell};
use crate::script::{reconstruct, walk, Edit, EditOperation};

verus! {

/// The lines that report one operation: a heading, the line of the first
/// document, that of the second, and a closing rule, as far as the operation
/// has them. A line left as it is stands alone, without heading or rule.
pub open spec fn block(op: Edit) -> Seq<Seq<char>> {
    match op {
        Edit::Deleted(line) => seq![
            "-----DELETED LINE-----"@,
            "File 1: "@ + line,
            "---------------"@,
        ],
        Edit::Inserted(line) => seq![
            "-----ADDED LINE-----"@,
            "File 2: "@ + line,
            "---------------"@,
        ],
        Edit::Updated(from, to) => seq![
            "-----UPDATED LINE-----"@,
            "File 1: "@ + from,
            "File 2: "@ + to,
            "---------------"@,
        ],
        Edit::Unchanged(line) => seq!["File 1: "@ + line],
    }
}

/// The report of a script: the blocks of its operations, in order.
pub open spec fn report(script: Seq<Edit>) -> Seq<Seq<char>>
    decreases script.len(),
{
    if script.len() == 0 {
        seq![]
    } else {
        block(script[0]) + report(script.skip(1))
    }
}

/// `label` followed by `line`.
fn labelled(label: &str, line: &String) -> (text: String)
    ensures
        text@ == label@ + line@,
{
    String::from_str(label).concat(line.as_str())
}

/// Appends the block of `op` to `out`.
fn push_block(out: &mut Vec<String>, op: &EditOperation)
    ensures
        final(out).deep_view() == old(out).deep_view() + block(op@),
{
    let ghost before = out.deep_view();
    match op {
        EditOperation::Deleted(line) => {
            out.push(String::from_str("-----DELETED LINE-----"));
            out.push(labelled("File 1: ", line));
            out.push(String::from_str("---------------"));
        },
        EditOperation::Inserted(line) => {
            out.push(String::from_str("-----ADDED LINE-----"));
            out.push(labelled("File 2: ", line));
            out.push(String::from_str("---------------"));
        },
        EditOperation::Updated(from, to) => {
            out.push(String::from_str("-----UPDATED LINE-----"));
            out.push(labelled("File 1: ", from));
            out.push(labelled("File 2: ", to));
            out.push(String::from_str("---------------"));
        },
        EditOperation::Unchanged(line) => {
            out.push(labelled("File 1: ", line));
        },
    }
    assert(out.deep_view() =~= before + block(op@));
}

/// Renders a script as its report.
pub fn render(ops: &Vec<EditOperation>) -> (out: Vec<String>)
    ensures
        out.deep_view() == report(ops.deep_view()),
{
    let ghost script = ops.deep_view();
    let mut out: Vec<String> = Vec::new();
    let mut at: usize = 0;
    assert(out.deep_view() + report(script.skip(0)) =~= report(script)) by {
        assert(script.skip(0) =~= script);
    }
    while at < ops.len()
        invariant
            script == ops.deep_view(),
            at <= ops.len(),
            out.deep_view() + report(script.skip(at as int)) == report(script),
        decreases ops.len() - at,
    {
        let ghost before = out.deep_view();
        push_block(&mut out, &ops[at]);
        proof {
            let rest = script.skip(at as int);
            assert(rest.skip(1) =~= script.skip(at + 1));
            assert(rest[0] == ops[at as int]@);
            assert((before + block(rest[0])) + report(rest.skip(1)) =~= before + (block(rest[0])
                + report(rest.skip(1))));
        }
        at += 1;
    }
    assert(out.deep_view() =~= out.deep_view() + report(script.skip(at as int)));
    out
}

/// Reads the edit script off a cost table and renders it as a report.
pub fn process_edit_distance_to_file(
    matrix: &Vec<Vec<EditCell>>,
    file_a: &Vec<String>,
    file_b: &Vec<String>,
) -> (out: Vec<String>)
    requires
        has_shape(grid(matrix), lines(file_a), lines(file_b)),
    ensures
        out.deep_view() == report(walk(grid(matrix), lines(file_a), lines(file_b), 0, 0)),
{
    let ops = reconstruct(matrix, file_a, file_b);
    render(&ops)
}

} // verus!
