use streamline::delivery::{
    classify_status, Action, Event, HttpOutput, Method, Outcome, Phase, SinkRun, StatusClass,
    TOO_MANY_REQUESTS,
};

/// Drives a run over `items`, answering each request with the next entry of
/// `answers` (`Ok(status)` or `Err(reason)`); refused bodies read as "nope".
/// Returns the bodies sent, the outcomes settled, and whether the run finished.
fn drive(items: &[&[u8]], answers: &[Result<u16, &str>]) -> (Vec<Vec<u8>>, Vec<Outcome>, bool) {
    let mut run = SinkRun::new();
    let mut upstream = items.iter();
    let mut replies = answers.iter();
    let mut sent = Vec::new();
    let mut outcomes = Vec::new();
    let mut event = Event::Pulled(upstream.next().map(|b| b.to_vec()));
    loop {
        assert!(run.accepts(&event));
        match run.step(event) {
            Action::Send(body) => {
                sent.push(body);
                event = match replies.next().unwrap() {
                    Ok(status) => Event::Responded(*status),
                    Err(reason) => Event::TransportFailed(reason.to_string()),
                };
            }
            Action::ReadBody => event = Event::BodyRead("nope".to_string()),
            Action::Settle(outcome) => {
                outcomes.push(outcome);
                event = Event::Pulled(upstream.next().map(|b| b.to_vec()));
            }
            Action::Finish => return (sent, outcomes, run.phase() == Phase::Finished),
        }
    }
}

#[test]
fn statuses_200_429_500() {
    let (sent, outcomes, finished) = drive(&[b"one", b"two", b"three"], &[Ok(200), Ok(429), Ok(500)]);
    assert_eq!(sent, vec![b"one".to_vec(), b"two".to_vec(), b"three".to_vec()]);
    assert_eq!(
        outcomes,
        vec![
            Outcome::Delivered,
            Outcome::Throttled,
            Outcome::Rejected { status: 500, body: "nope".to_string() },
        ]
    );
    assert!(finished);
}

#[test]
fn refused_connections() {
    let (sent, outcomes, finished) = drive(
        &[b"a", b"b", b"c"],
        &[Err("connection refused"), Err("connection refused"), Err("connection refused")],
    );
    assert_eq!(sent.len(), 3);
    let refused = || Outcome::TransportError { reason: "connection refused".to_string() };
    assert_eq!(outcomes, vec![refused(), refused(), refused()]);
    assert!(finished);
}

#[test]
fn bodies_go_out_in_arrival_order() {
    let items: Vec<&[u8]> = vec![b"5", b"3", b"5", b"", b"9"];
    let answers = [Ok(200), Err("reset"), Ok(404), Ok(429), Ok(204)];
    let (sent, outcomes, finished) = drive(&items, &answers);
    let expected: Vec<Vec<u8>> = items.iter().map(|b| b.to_vec()).collect();
    assert_eq!(sent, expected);
    assert_eq!(outcomes.len(), 5);
    assert!(finished);
}

#[test]
fn empty_stream_finishes_at_once() {
    let (sent, outcomes, finished) = drive(&[], &[]);
    assert!(sent.is_empty());
    assert!(outcomes.is_empty());
    assert!(finished);
}

#[test]
fn each_category_settles_once_and_moves_on() {
    let answers = [Ok(201), Ok(429), Ok(503), Err("timeout"), Ok(302)];
    let (_, outcomes, finished) = drive(&[b"a", b"b", b"c", b"d", b"e"], &answers);
    assert_eq!(
        outcomes,
        vec![
            Outcome::Delivered,
            Outcome::Throttled,
            Outcome::Rejected { status: 503, body: "nope".to_string() },
            Outcome::TransportError { reason: "timeout".to_string() },
            Outcome::Rejected { status: 302, body: "nope".to_string() },
        ]
    );
    assert!(finished);
}

#[test]
fn status_classes() {
    assert_eq!(classify_status(200), StatusClass::Success);
    assert_eq!(classify_status(299), StatusClass::Success);
    assert_eq!(classify_status(199), StatusClass::Failure);
    assert_eq!(classify_status(300), StatusClass::Failure);
    assert_eq!(classify_status(TOO_MANY_REQUESTS), StatusClass::TooManyRequests);
    assert_eq!(classify_status(404), StatusClass::Failure);
    assert_eq!(classify_status(500), StatusClass::Failure);
    assert_eq!(classify_status(0), StatusClass::Failure);
}

#[test]
fn phases_accept_only_their_events() {
    let mut run = SinkRun::new();
    assert_eq!(run.phase(), Phase::Ready);
    assert!(!run.accepts(&Event::Responded(200)));
    assert!(run.accepts(&Event::Pulled(None)));
    assert_eq!(run.step(Event::Pulled(Some(b"x".to_vec()))), Action::Send(b"x".to_vec()));
    assert_eq!(run.phase(), Phase::Sending);
    assert!(!run.accepts(&Event::Pulled(None)));
    assert!(!run.accepts(&Event::BodyRead(String::new())));
    assert_eq!(run.step(Event::Responded(418)), Action::ReadBody);
    assert_eq!(run.phase(), Phase::ReadingBody { status: 418 });
    assert!(run.accepts(&Event::BodyRead(String::new())));
    assert!(!run.accepts(&Event::Responded(200)));
    assert_eq!(
        run.step(Event::BodyRead("teapot".to_string())),
        Action::Settle(Outcome::Rejected { status: 418, body: "teapot".to_string() })
    );
    assert_eq!(run.step(Event::Pulled(None)), Action::Finish);
    assert!(!run.accepts(&Event::Pulled(None)));
}

fn headers() -> Vec<(String, String)> {
    vec![
        ("authorization".to_string(), "Bearer t".to_string()),
        ("x-trace".to_string(), "1".to_string()),
    ]
}

#[test]
fn sink_keeps_its_configuration() {
    let sink = HttpOutput::new("http://localhost:8080/ingest".to_string(), Method::Put, Some(headers()));
    assert_eq!(sink.endpoint(), "http://localhost:8080/ingest");
    assert_eq!(sink.method(), Method::Put);
    assert_eq!(sink.default_headers(), &headers());
}

#[test]
fn sink_without_headers() {
    let sink = HttpOutput::new("http://example.test/".to_string(), Method::default(), None);
    assert_eq!(sink.method(), Method::Post);
    assert!(sink.default_headers().is_empty());
}

#[test]
fn same_configuration_builds_the_same_sink() {
    let a = HttpOutput::new("http://example.test/a".to_string(), Method::Post, Some(headers()));
    let b = HttpOutput::new("http://example.test/a".to_string(), Method::Post, Some(headers()));
    assert_eq!(a.endpoint(), b.endpoint());
    assert_eq!(a.method(), b.method());
    assert_eq!(a.default_headers(), b.default_headers());
}
