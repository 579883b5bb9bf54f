use tsuitate_bot::webhook::{
    credentials, handle, header_value, Progress, Refusal, Step, MAX_BODY_BYTES,
};

fn head(is_post: bool, url: &str) -> Progress {
    Progress::Head { is_post, url: url.to_string() }
}

#[test]
fn a_good_request_gets_to_a_move() {
    assert_eq!(handle(&head(true, "/move"), "/move"), Step::ReadBody);
    assert_eq!(
        handle(&Progress::Body { length: Some(MAX_BODY_BYTES) }, "/move"),
        Step::CheckSignature
    );
    assert_eq!(
        handle(&Progress::Signature { verified: true }, "/move"),
        Step::ParsePayload
    );
    assert_eq!(handle(&Progress::Payload { parsed: true }, "/move"), Step::ChooseMove);
}

#[test]
fn a_bad_request_is_refused_where_it_fails() {
    assert_eq!(
        handle(&head(false, "/elsewhere"), "/move"),
        Step::Refuse(Refusal::MethodNotAllowed)
    );
    assert_eq!(handle(&head(true, "/move/"), "/move"), Step::Refuse(Refusal::NotFound));
    assert_eq!(
        handle(&Progress::Body { length: None }, "/move"),
        Step::Refuse(Refusal::InvalidBody)
    );
    assert_eq!(
        handle(&Progress::Body { length: Some(MAX_BODY_BYTES + 1) }, "/move"),
        Step::Refuse(Refusal::RequestTooLarge)
    );
    assert_eq!(
        handle(&Progress::Signature { verified: false }, "/move"),
        Step::Refuse(Refusal::Unauthorized)
    );
    assert_eq!(
        handle(&Progress::Payload { parsed: false }, "/move"),
        Step::Refuse(Refusal::InvalidJson)
    );
}

#[test]
fn every_refusal_has_a_status_and_a_code() {
    let all = [
        (Refusal::MethodNotAllowed, 405, "method_not_allowed"),
        (Refusal::NotFound, 404, "not_found"),
        (Refusal::InvalidBody, 400, "invalid_body"),
        (Refusal::RequestTooLarge, 413, "request_too_large"),
        (Refusal::Unauthorized, 401, "unauthorized"),
        (Refusal::InvalidJson, 400, "invalid_json"),
    ];
    for (r, status, code) in all {
        assert_eq!(r.status(), status);
        assert_eq!(r.code(), code);
    }
}

#[test]
fn headers_are_found_whatever_their_case() {
    let headers = vec![
        ("Content-Type".to_string(), "application/json".to_string()),
        ("x-tsuitate-timestamp".to_string(), "17".to_string()),
        ("X-TSUITATE-SIGNATURE".to_string(), "abc".to_string()),
        ("X-Tsuitate-Signature".to_string(), "later".to_string()),
    ];
    assert_eq!(header_value(&headers, "content-type").as_deref(), Some("application/json"));
    assert_eq!(header_value(&headers, "Accept"), None);
    assert_eq!(credentials(&headers), Some(("17".to_string(), "abc".to_string())));
    assert_eq!(credentials(&headers[..2].to_vec()), None);
    assert_eq!(credentials(&vec![]), None);
}
