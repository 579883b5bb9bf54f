//! The decisions of the HTTP adapter: which requests are refused and with what answer, before a
//! turn is played.

use crate::text::{equal_but_case, same_but_case, same_text};
use vstd::prelude::*;
use vstd::string::*;

verus! {

/// The longest body that is read.
pub const MAX_BODY_BYTES: u64 = 131072;

/// Why a request is refused.
#[derive(Clone, Copy, Debug, PartialEq, Eq, Structural)]
pub enum Refusal {
    MethodNotAllowed,
    NotFound,
    InvalidBody,
    RequestTooLarge,
    Unauthorized,
    InvalidJson,
}

impl Refusal {
    pub open spec fn spec_status(self) -> u16 {
        match self {
            Refusal::MethodNotAllowed => 405,
            Refusal::NotFound => 404,
            Refusal::InvalidBody => 400,
            Refusal::RequestTooLarge => 413,
            Refusal::Unauthorized => 401,
            Refusal::InvalidJson => 400,
        }
    }

    /// The status code of the answer.
    pub fn status(self) -> (res: u16)
        ensures
            res == self.spec_status(),
    {
        match self {
            Refusal::MethodNotAllowed => 405,
            Refusal::NotFound => 404,
            Refusal::InvalidBody => 400,
            Refusal::RequestTooLarge => 413,
            Refusal::Unauthorized => 401,
            Refusal::InvalidJson => 400,
        }
    }

    /// The error code in the answer.
    pub fn code(self) -> (res: &'static str)
        ensures
            res@ == match self {
                Refusal::MethodNotAllowed => "method_not_allowed"@,
                Refusal::NotFound => "not_found"@,
                Refusal::InvalidBody => "invalid_body"@,
                Refusal::RequestTooLarge => "request_too_large"@,
                Refusal::Unauthorized => "unauthorized"@,
                Refusal::InvalidJson => "invalid_json"@,
            },
    {
        match self {
            Refusal::MethodNotAllowed => "method_not_allowed",
            Refusal::NotFound => "not_found",
            Refusal::InvalidBody => "invalid_body",
            Refusal::RequestTooLarge => "request_too_large",
            Refusal::Unauthorized => "unauthorized",
            Refusal::InvalidJson => "invalid_json",
        }
    }
}

/// How far a request has come, with what was found there.
#[derive(Debug)]
pub enum Progress {
    /// The request line.
    Head { is_post: bool, url: String },
    /// The body was read: its length, or that it could not be read.
    Body { length: Option<u64> },
    /// The signature was checked.
    Signature { verified: bool },
    /// The body was parsed.
    Payload { parsed: bool },
}

/// What comes next for a request.
#[derive(Clone, Copy, Debug, PartialEq, Eq, Structural)]
pub enum Step {
    Refuse(Refusal),
    /// Read at most one byte more than the longest body.
    ReadBody,
    CheckSignature,
    ParsePayload,
    ChooseMove,
}

/// What comes next for a request.
pub open spec fn step_after(progress: Progress, expected_path: Seq<char>) -> Step {
    match progress {
        Progress::Head { is_post, url } => if !is_post {
            Step::Refuse(Refusal::MethodNotAllowed)
        } else if url@ != expected_path {
            Step::Refuse(Refusal::NotFound)
        } else {
            Step::ReadBody
        },
        Progress::Body { length } => match length {
            None => Step::Refuse(Refusal::InvalidBody),
            Some(n) => if n > MAX_BODY_BYTES {
                Step::Refuse(Refusal::RequestTooLarge)
            } else {
                Step::CheckSignature
            },
        },
        Progress::Signature { verified } => if verified {
            Step::ParsePayload
        } else {
            Step::Refuse(Refusal::Unauthorized)
        },
        Progress::Payload { parsed } => if parsed {
            Step::ChooseMove
        } else {
            Step::Refuse(Refusal::InvalidJson)
        },
    }
}

/// Decides what comes next for a request.
pub fn handle(progress: &Progress, expected_path: &str) -> (res: Step)
    ensures
        res == step_after(*progress, expected_path@),
{
    match progress {
        Progress::Head { is_post, url } => {
            if !*is_post {
                Step::Refuse(Refusal::MethodNotAllowed)
            } else if !same_text(url.as_str(), expected_path) {
                Step::Refuse(Refusal::NotFound)
            } else {
                Step::ReadBody
            }
        },
        Progress::Body { length } => match *length {
            None => Step::Refuse(Refusal::InvalidBody),
            Some(n) => {
                if n > MAX_BODY_BYTES {
                    Step::Refuse(Refusal::RequestTooLarge)
                } else {
                    Step::CheckSignature
                }
            },
        },
        Progress::Signature { verified } => {
            if *verified {
                Step::ParsePayload
            } else {
                Step::Refuse(Refusal::Unauthorized)
            }
        },
        Progress::Payload { parsed } => {
            if *parsed {
                Step::ChooseMove
            } else {
                Step::Refuse(Refusal::InvalidJson)
            }
        },
    }
}

/// A request whose signature was not verified, whose body is too long or could not be read, or that
/// came by another method or path never gets as far as its payload.
pub proof fn law_payload_only_after_all_tests(
    head: Progress,
    body: Progress,
    signature: Progress,
    path: Seq<char>,
)
    requires
        head is Head,
        body is Body,
        signature is Signature,
    ensures
        (step_after(head, path) == Step::ReadBody && step_after(body, path)
            == Step::CheckSignature && step_after(signature, path) == Step::ParsePayload) <==> {
            &&& head->is_post
            &&& head->url@ == path
            &&& body->length is Some
            &&& body->length->0 <= MAX_BODY_BYTES
            &&& signature->verified
        },
{
}

/// The place of the first header of a name, whatever the case of its letters.
pub open spec fn header_place(
    headers: Seq<(String, String)>,
    name: Seq<char>,
    i: int,
) -> Option<int>
    decreases headers.len() - i,
{
    if i < 0 || i >= headers.len() {
        None
    } else if same_but_case(headers[i].0@, name) {
        Some(i)
    } else {
        header_place(headers, name, i + 1)
    }
}

/// The value of the first header of a name, whatever the case of its letters.
pub fn header_value(headers: &Vec<(String, String)>, name: &str) -> (res: Option<String>)
    ensures
        match header_place(headers@, name@, 0) {
            Some(i) => res is Some && res->0@ == headers@[i].1@,
            None => res is None,
        },
{
    let mut i: usize = 0;
    while i < headers.len()
        invariant
            i <= headers@.len(),
            header_place(headers@, name@, 0) == header_place(headers@, name@, i as int),
        decreases headers@.len() - i,
    {
        if equal_but_case(headers[i].0.as_str(), name) {
            return Some(headers[i].1.clone());
        }
        i += 1;
    }
    None
}

/// The timestamp and the signature of a request; a request that lacks one has neither.
pub fn credentials(headers: &Vec<(String, String)>) -> (res: Option<(String, String)>)
    ensures
        match (
            header_place(headers@, "X-Tsuitate-Timestamp"@, 0),
            header_place(headers@, "X-Tsuitate-Signature"@, 0),
        ) {
            (Some(t), Some(s)) => res matches Some(pair) && pair.0@ == headers@[t].1@
                && pair.1@ == headers@[s].1@,
            _ => res is None,
        },
{
    match (
        header_value(headers, "X-Tsuitate-Timestamp"),
        header_value(headers, "X-Tsuitate-Signature"),
    ) {
        (Some(timestamp), Some(signature)) => Some((timestamp, signature)),
        _ => None,
    }
}

/// Each test refuses for its own reason and with its own status: another method than a POST, another
/// path, a body that cannot be read or is longer than 131072 bytes, a signature that does not hold, a
/// payload that is not understood. What passes goes on to the next test.
pub proof fn law_refusals(path: Seq<char>, url: String, is_post: bool, length: Option<u64>, good: bool)
    ensures
        step_after(Progress::Head { is_post, url }, path) == (if !is_post {
            Step::Refuse(Refusal::MethodNotAllowed)
        } else if url@ != path {
            Step::Refuse(Refusal::NotFound)
        } else {
            Step::ReadBody
        }),
        length is None ==> step_after(Progress::Body { length }, path) == Step::Refuse(
            Refusal::InvalidBody,
        ),
        length matches Some(n) ==> (step_after(Progress::Body { length }, path) == Step::Refuse(
            Refusal::RequestTooLarge,
        ) <==> n > 131072),
        length matches Some(n) ==> (step_after(Progress::Body { length }, path)
            == Step::CheckSignature <==> n <= 131072),
        step_after(Progress::Signature { verified: good }, path) == (if good {
            Step::ParsePayload
        } else {
            Step::Refuse(Refusal::Unauthorized)
        }),
        step_after(Progress::Payload { parsed: good }, path) == (if good {
            Step::ChooseMove
        } else {
            Step::Refuse(Refusal::InvalidJson)
        }),
        Refusal::MethodNotAllowed.spec_status() == 405,
        Refusal::NotFound.spec_status() == 404,
        Refusal::InvalidBody.spec_status() == 400,
        Refusal::RequestTooLarge.spec_status() == 413,
        Refusal::Unauthorized.spec_status() == 401,
        Refusal::InvalidJson.spec_status() == 400,
{
}

/// The header that counts is the first whose name is the one asked for but for the case of its
/// letters; there is none only where no header has that name.
pub proof fn law_first_header(headers: Seq<(String, String)>, name: Seq<char>, from: int)
    requires
        0 <= from <= headers.len(),
    ensures
        match header_place(headers, name, from) {
            Some(i) => from <= i < headers.len() && same_but_case(headers[i].0@, name) && forall|k: int|
                from <= k < i ==> !same_but_case((#[trigger] headers[k]).0@, name),
            None => forall|k: int|
                from <= k < headers.len() ==> !same_but_case((#[trigger] headers[k]).0@, name),
        },
    decreases headers.len() - from,
{
    if from < headers.len() && !same_but_case(headers[from].0@, name) {
        law_first_header(headers, name, from + 1);
    }
}

} // verus!
