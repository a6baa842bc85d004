//! The request line: method, target and version.

use crate::text::{cut, split_once};
use crate::{verb_of, HttpVerbs, ResponseableError};
use vstd::prelude::*;

verus! {

/// The separator of the three fields of a request line.
pub open spec fn space() -> Seq<char> {
    seq![' ']
}

/// The separator of a target's path and query.
pub open spec fn question_mark() -> Seq<char> {
    seq!['?']
}

/// The three fields of a request line. There are none where the line does
/// not hold exactly two spaces.
pub open spec fn request_fields(line: Seq<char>) -> Option<(Seq<char>, Seq<char>, Seq<char>)> {
    match split_once(line, space()) {
        Some((method, rest)) => match split_once(rest, space()) {
            Some((target, version)) => if split_once(version, space()) is None {
                Some((method, target, version))
            } else {
                None
            },
            None => None,
        },
        None => None,
    }
}

/// The path of a target: what stands before its first `?`, or all of it.
pub open spec fn target_path(target: Seq<char>) -> Seq<char> {
    match split_once(target, question_mark()) {
        Some((path, _)) => path,
        None => target,
    }
}

/// The query of a target: what stands after its first `?`, if it has one.
pub open spec fn target_query(target: Seq<char>) -> Option<Seq<char>> {
    match split_once(target, question_mark()) {
        Some((_, query)) => Some(query),
        None => None,
    }
}

/// A request line taken apart.
#[derive(Debug, PartialEq, Eq)]
pub struct ParsedFirstLine {
    pub method: HttpVerbs,
    pub path: String,
    pub query: Option<String>,
    pub version: String,
}

impl ParsedFirstLine {
    /// Whether this is what the three fields of a request line say.
    pub open spec fn holds(&self, method: Seq<char>, target: Seq<char>, version: Seq<char>) -> bool {
        &&& verb_of(method) == Some(self.method)
        &&& self.path@ == target_path(target)
        &&& match self.query {
            Some(query) => target_query(target) == Some(query@),
            None => target_query(target) is None,
        }
        &&& self.version@ == version
    }

    /// Takes a request line apart. The line comes without its line end. A
    /// line that does not have three fields is refused as not HTTP conform,
    /// and one with an unknown method as not implemented.
    pub fn parse(line: String) -> (r: Result<Self, ResponseableError>)
        ensures
            match r {
                Ok(parsed) => request_fields(line@) matches Some((method, target, version))
                    && parsed.holds(method, target, version),
                Err(ResponseableError::NotHttpConform) => request_fields(line@) is None,
                Err(ResponseableError::MethodNotImplemented(name)) => request_fields(line@) matches Some(
                    (method, _, _),
                ) && verb_of(method) is None && name@ == method,
                Err(_) => false,
            },
    {
        proof {
            reveal_strlit(" ");
            reveal_strlit("?");
            assert(" "@ =~= space());
            assert("?"@ =~= question_mark());
        }
        let (method, rest) = match cut(line.as_str(), " ") {
            Some(found) => found,
            None => {
                return Err(ResponseableError::NotHttpConform);
            },
        };
        let (target, version) = match cut(rest, " ") {
            Some(found) => found,
            None => {
                return Err(ResponseableError::NotHttpConform);
            },
        };
        if cut(version, " ").is_some() {
            return Err(ResponseableError::NotHttpConform);
        }
        let method = match HttpVerbs::map_method(method) {
            Ok(verb) => verb,
            Err(e) => {
                return Err(e);
            },
        };
        match cut(target, "?") {
            Some((path, query)) => Ok(
                Self {
                    method,
                    path: path.to_owned(),
                    query: Some(query.to_owned()),
                    version: version.to_owned(),
                },
            ),
            None => Ok(
                Self { method, path: target.to_owned(), query: None, version: version.to_owned() },
            ),
        }
    }
}

} // verus!
