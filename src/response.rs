use vstd::prelude::*;

use crate::value::Value;

verus! {

/// A position in a query document.
#[derive(Clone, Copy, Debug, PartialEq, Eq, Structural)]
pub struct Pos {
    pub line: usize,
    pub column: usize,
}

/// An error reported in a response.
#[derive(Debug, PartialEq, Eq)]
pub struct ServerError {
    pub message: String,
    pub locations: Vec<Pos>,
}

/// A GraphQL response: the data assembled so far and the errors met.
#[derive(Debug, PartialEq)]
pub struct Response {
    pub data: Value,
    pub errors: Vec<ServerError>,
}

impl ServerError {
    /// An error with `message` and no location.
    pub fn new(message: String) -> (r: ServerError)
        ensures
            r.message@ == message@,
            r.locations@.len() == 0,
    {
        ServerError { message, locations: Vec::new() }
    }
}

impl Response {
    /// The empty response: null data and no errors.
    pub fn new() -> (r: Response)
        ensures
            r.data@ == crate::value::JValue::Null,
            r.errors@.len() == 0,
    {
        Response { data: Value::Null, errors: Vec::new() }
    }
}

/// The messages of a list of errors.
pub open spec fn messages(errors: Seq<ServerError>) -> Seq<Seq<char>> {
    Seq::new(errors.len(), |i: int| errors[i].message@)
}

/// Whether every error of `errors` from `start` on has no location.
pub open spec fn no_locations_from(errors: Seq<ServerError>, start: int) -> bool {
    forall|i: int| start <= i < errors.len() ==> (#[trigger] errors[i]).locations@.len() == 0
}

/// Appends each error of `errors` to `target`, with its locations cleared.
pub fn merge_errors(target: &mut Vec<ServerError>, errors: Vec<ServerError>)
    ensures
        final(target)@.len() == old(target)@.len() + errors@.len(),
        final(target)@.take(old(target)@.len() as int) == old(target)@,
        messages(final(target)@) == messages(old(target)@) + messages(errors@),
        no_locations_from(final(target)@, old(target)@.len() as int),
{
    let ghost start = target@;
    let ghost errs = errors@;
    let total = errors.len();
    let mut rest = errors;
    let mut j: usize = 0;
    while rest.len() > 0
        invariant
            rest@ == errs.skip(j as int),
            j + rest.len() == errs.len(),
            errs.len() == total,
            target@.len() == start.len() + j,
            target@.take(start.len() as int) == start,
            messages(target@) =~= messages(start) + messages(errs.take(j as int)),
            no_locations_from(target@, start.len() as int),
        decreases rest.len(),
    {
        let err = rest.remove(0);
        proof {
            assert(errs[j as int] == err);
        }
        let ghost before = target@;
        target.push(ServerError::new(err.message));
        j = j + 1;
        proof {
            assert(target@.drop_last() =~= before);
            assert(messages(before) =~= messages(start) + messages(errs.take(j - 1)));
            assert(messages(target@) =~= messages(before).push(err.message@));
            assert(errs.take(j as int) =~= errs.take(j - 1).push(err));
            assert(target@.take(start.len() as int) =~= start);
            assert(messages(target@) =~= messages(start) + messages(errs.take(j as int)));
        }
    }
    proof {
        assert(errs.take(j as int) =~= errs);
    }
}

} // verus!
