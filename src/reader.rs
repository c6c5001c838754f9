use vstd::prelude::*;

use crate::measure::{parse_measure, parse_spec, Measure, ParseError};

verus! {

/// The value that answered a question, and the diagnostics, in order, for
/// the lines that were turned down before it.
#[derive(Debug)]
pub struct Answer {
    pub value: Measure,
    pub rejected: Vec<ParseError>,
}

/// Answers a question from the lines that follow it: each line that is not a
/// measure is turned down with its diagnostic, and the first that is one is
/// the answer. Where no line is one, the input ran out first.
pub fn ask_question(lines: &Vec<String>) -> (r: Option<Answer>)
    ensures
        match r {
            Some(a) => {
                &&& a.rejected@.len() < lines@.len()
                &&& a.value.wf()
                &&& parse_spec(lines@[a.rejected@.len() as int]@) == Ok::<Measure, ParseError>(
                    a.value,
                )
                &&& forall|i: int|
                    0 <= i < a.rejected@.len() ==> parse_spec(#[trigger] lines@[i]@) == Err::<
                        Measure,
                        ParseError,
                    >(a.rejected@[i])
            },
            None => forall|i: int|
                0 <= i < lines@.len() ==> parse_spec(#[trigger] lines@[i]@) is Err,
        },
{
    let mut rejected: Vec<ParseError> = Vec::new();
    let mut i: usize = 0;
    while i < lines.len()
        invariant
            i <= lines@.len(),
            rejected@.len() == i,
            forall|j: int|
                0 <= j < i ==> parse_spec(#[trigger] lines@[j]@) == Err::<Measure, ParseError>(
                    rejected@[j],
                ),
        decreases lines@.len() - i,
    {
        match parse_measure(lines[i].as_str()) {
            Ok(value) => {
                return Some(Answer { value, rejected });
            },
            Err(e) => {
                rejected.push(e);
            },
        }
        i = i + 1;
    }
    None
}

} // verus!
