//! Notification events: delivery routes, event texts, and the posted body.

use clobber::comms::User;
use clobber::pings::{ping_body, Ping};

#[test]
fn routes_are_fixed_per_event_kind() {
    let cancelled = Ping::JobCancelled { id: 1, reason: "r".to_string() };
    let started = Ping::JobStarted { id: 1 };
    let finished = Ping::JobFinished { id: 1 };
    assert_eq!(cancelled.get_route_uuid(), "97f166a0-d9f9-4888-b8ad-b09656f19330");
    assert_eq!(started.get_route_uuid(), "f810410a-0dcd-4271-8b75-b6e6ce5ead7e");
    assert_eq!(finished.get_route_uuid(), "aab2a0c6-001c-455a-956f-10c8b685fb87");
}

#[test]
fn messages_spell_the_event() {
    assert_eq!(Ping::JobStarted { id: 5 }.message(), "Job 5 started");
    assert_eq!(Ping::JobFinished { id: 65535 }.message(), "Job 65535 finished");
    assert_eq!(
        Ping::JobCancelled { id: 0, reason: "Cannot find image img".to_string() }.message(),
        "Job 0 cancelled: Cannot find image img"
    );
}

#[test]
fn body_is_json_with_escaped_fields() {
    let user = User { name: "alice".to_string(), uid: 1000 };
    let body = ping_body(&user, &Ping::JobStarted { id: 5 });
    assert_eq!(body, "{\"username\":\"alice\",\"body\":\"Job 5 started\"}");

    let quoted = User { name: "a\"b".to_string(), uid: 1 };
    let body = ping_body(&quoted, &Ping::JobFinished { id: 1 });
    assert_eq!(body, "{\"username\":\"a\\\"b\",\"body\":\"Job 1 finished\"}");
    let v: serde_json::Value = serde_json::from_str(&body).expect("valid JSON");
    assert_eq!(v["username"], serde_json::Value::from("a\"b"));

    // a podman error text with a newline still yields a valid JSON body
    let user = User { name: "bob".to_string(), uid: 2 };
    let ping = Ping::JobCancelled { id: 3, reason: "first line\nsecond line".to_string() };
    let body = ping_body(&user, &ping);
    let v: serde_json::Value = serde_json::from_str(&body).expect("valid JSON");
    assert_eq!(
        v["body"],
        serde_json::Value::from("Job 3 cancelled: first line\nsecond line")
    );
}
