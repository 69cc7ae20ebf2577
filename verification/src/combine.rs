use vstd::prelude::*;
use vstd::string::*;

verus! {

/// The outcome of one fallible operation, with its message reduced to the
/// characters it carries.
pub open spec fn res_view(r: Result<(), String>) -> Result<(), Seq<char>> {
    match r {
        Ok(()) => Ok(()),
        Err(e) => Err(e@),
    }
}

/// The outcomes of a sequence of fallible operations, each reduced to the
/// characters its message carries.
pub open spec fn res_views(rs: Seq<Result<(), String>>) -> Seq<Result<(), Seq<char>>> {
    rs.map_values(|r: Result<(), String>| res_view(r))
}

/// The rendering of one label or detail inside a combined report: the
/// characters that the standard library's `Debug` formatting gives the
/// string, surrounding quotes and escapes included. The rendering depends on
/// the characters alone; its full definition (the escape tables) lives in
/// the standard library.
pub uninterp spec fn debug_str(s: Seq<char>) -> Seq<char>;

/// Relies on std's `Debug` formatting for `str` (through `format!`): the
/// result is a function of the string's characters alone.
#[verifier::external_body]
fn debug_quoted(s: &str) -> (r: String)
    ensures
        r@ == debug_str(s@),
{
    format!("{:?}", s)
}

/// The message that reports two failures at once: each failure keeps its
/// label and its detail, in order, every part in its `Debug` rendering.
pub open spec fn combined_message(
    l1: Seq<char>,
    e1: Seq<char>,
    l2: Seq<char>,
    e2: Seq<char>,
) -> Seq<char> {
    debug_str(l1) + ": "@ + debug_str(e1) + ", "@ + debug_str(l2) + ": "@ + debug_str(e2)
}

/// The message that reports three failures at once.
pub open spec fn combined_message3(
    l1: Seq<char>,
    e1: Seq<char>,
    l2: Seq<char>,
    e2: Seq<char>,
    l3: Seq<char>,
    e3: Seq<char>,
) -> Seq<char> {
    combined_message(l1, e1, l2, e2) + ", "@ + debug_str(l3) + ": "@ + debug_str(e3)
}

/// Combines the outcomes of two independent operations: success only when
/// both succeeded, a lone failure passed through unchanged, and two failures
/// folded into one message that preserves both.
pub open spec fn combine2(
    l1: Seq<char>,
    r1: Result<(), Seq<char>>,
    l2: Seq<char>,
    r2: Result<(), Seq<char>>,
) -> Result<(), Seq<char>> {
    match (r1, r2) {
        (Ok(()), _) => r2,
        (Err(_), Ok(())) => r1,
        (Err(e1), Err(e2)) => Err(combined_message(l1, e1, l2, e2)),
    }
}

/// Combines the outcomes of three independent operations, on the same rule
/// as `combine2`: every failure that occurred is preserved, in order.
pub open spec fn combine3(
    l1: Seq<char>,
    r1: Result<(), Seq<char>>,
    l2: Seq<char>,
    r2: Result<(), Seq<char>>,
    l3: Seq<char>,
    r3: Result<(), Seq<char>>,
) -> Result<(), Seq<char>> {
    match (r1, r2, r3) {
        (Ok(()), _, _) => combine2(l2, r2, l3, r3),
        (Err(_), Ok(()), _) => combine2(l1, r1, l3, r3),
        (Err(_), Err(_), Ok(())) => combine2(l1, r1, l2, r2),
        (Err(e1), Err(e2), Err(e3)) => Err(combined_message3(l1, e1, l2, e2, l3, e3)),
    }
}

/// Builds the two-failure report `"label1": "detail1", "label2": "detail2"`.
fn build_message(label1: &str, e1: &str, label2: &str, e2: &str) -> (m: String)
    ensures
        m@ == combined_message(label1@, e1@, label2@, e2@),
{
    let mut m = debug_quoted(label1);
    let qe1 = debug_quoted(e1);
    let ql2 = debug_quoted(label2);
    let qe2 = debug_quoted(e2);
    m.append(": ");
    m.append(qe1.as_str());
    m.append(", ");
    m.append(ql2.as_str());
    m.append(": ");
    m.append(qe2.as_str());
    m
}

/// Folds the results of two independent operations performed for one event
/// into one overall result. Success needs both to have succeeded; a combined
/// failure preserves every individual failure's label and detail.
pub fn result_combine(
    label1: &str,
    result1: Result<(), String>,
    label2: &str,
    result2: Result<(), String>,
) -> (r: Result<(), String>)
    ensures
        res_view(r) == combine2(label1@, res_view(result1), label2@, res_view(result2)),
        result1 is Ok ==> r == result2,
        result1 is Err && result2 is Ok ==> r == result1,
{
    match (result1, result2) {
        (Ok(()), r2) => r2,
        (r1, Ok(())) => r1,
        (Err(e1), Err(e2)) => Err(build_message(label1, e1.as_str(), label2, e2.as_str())),
    }
}

/// Folds the results of three independent operations performed for one event
/// into one overall result, on the same rule as `result_combine`.
pub fn result_combine3(
    label1: &str,
    result1: Result<(), String>,
    label2: &str,
    result2: Result<(), String>,
    label3: &str,
    result3: Result<(), String>,
) -> (r: Result<(), String>)
    ensures
        res_view(r) == combine3(
            label1@,
            res_view(result1),
            label2@,
            res_view(result2),
            label3@,
            res_view(result3),
        ),
{
    match (result1, result2, result3) {
        (Ok(()), r2, r3) => result_combine(label2, r2, label3, r3),
        (r1, Ok(()), r3) => result_combine(label1, r1, label3, r3),
        (r1, r2, Ok(())) => result_combine(label1, r1, label2, r2),
        (Err(e1), Err(e2), Err(e3)) => {
            proof {
                assert(combined_message3(label1@, e1@, label2@, e2@, label3@, e3@) =~= (
                combined_message(label1@, e1@, label2@, e2@) + ", "@ + debug_str(label3@) + ": "@
                    + debug_str(e3@)));
            }
            let mut m = build_message(label1, e1.as_str(), label2, e2.as_str());
            let ql3 = debug_quoted(label3);
            let qe3 = debug_quoted(e3.as_str());
            m.append(", ");
            m.append(ql3.as_str());
            m.append(": ");
            m.append(qe3.as_str());
            Err(m)
        },
    }
}

} // verus!
