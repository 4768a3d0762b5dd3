//! Wire-format tests: exact documents, round trips, malformed input, and a
//! cross-check of the emitted JSON against an independent parser.

use clobber::codec::{decode_command, decode_response, encode_command, encode_response,
    parse_config};
use clobber::comms::{Command, JobDesc, QueuedJobDesc, Response, User};

fn user(uid: usize, name: &str) -> User {
    User { name: name.to_string(), uid }
}

#[test]
fn command_documents_are_exact() {
    assert_eq!(encode_command(&Command::Status), "\"Status\"");
    assert_eq!(encode_command(&Command::Kill), "\"Kill\"");
    assert_eq!(encode_command(&Command::ActiveJobs), "\"ActiveJobs\"");
    assert_eq!(
        encode_command(&Command::SetWatch { device_number: 3, watching: true }),
        "{\"SetWatch\":{\"device_number\":3,\"watching\":true}}"
    );
    assert_eq!(
        encode_command(&Command::MyJobs { uid: 1000 }),
        "{\"MyJobs\":{\"uid\":1000}}"
    );
    assert_eq!(
        encode_command(&Command::QueueJob {
            user: user(1000, "alice"),
            image_id: "img".to_string(),
            gpus: vec![0, 2],
        }),
        "{\"QueueJob\":{\"user\":{\"name\":\"alice\",\"uid\":1000},\"image_id\":\"img\",\"gpus\":[0,2]}}"
    );
}

#[test]
fn round_trip_unit_commands() {
    for c in [Command::Status, Command::Kill, Command::ActiveJobs] {
        let text = encode_command(&c);
        assert_eq!(decode_command(&text), Some(c));
    }
}

#[test]
fn round_trip_set_watch() {
    for (d, w) in [(0u32, true), (99, false), (u32::MAX, true)] {
        let c = Command::SetWatch { device_number: d, watching: w };
        let decoded = decode_command(&encode_command(&c)).expect("decodes");
        assert_eq!(decoded, c);
    }
}

#[test]
fn round_trip_queue_job() {
    let c = Command::QueueJob {
        user: user(4242, "bob"),
        image_id: "registry.example/thing:latest".to_string(),
        gpus: vec![1, 3, 7],
    };
    match decode_command(&encode_command(&c)).expect("decodes") {
        Command::QueueJob { user: u, image_id, gpus } => {
            assert_eq!(u.uid, 4242);
            assert_eq!(u.name, "bob");
            assert_eq!(image_id, "registry.example/thing:latest");
            assert_eq!(gpus, vec![1, 3, 7]);
        }
        other => panic!("wrong variant: {:?}", other),
    }
}

#[test]
fn round_trip_queue_job_empty_gpus() {
    let c = Command::QueueJob {
        user: user(1, "a"),
        image_id: String::new(),
        gpus: vec![],
    };
    match decode_command(&encode_command(&c)).expect("decodes") {
        Command::QueueJob { user: u, image_id, gpus } => {
            assert_eq!(u.name, "a");
            assert_eq!(image_id, "");
            assert!(gpus.is_empty());
        }
        other => panic!("wrong variant: {:?}", other),
    }
}

#[test]
fn round_trip_strings_with_control_characters() {
    let tricky = "line one\nline\ttwo\rbell\u{7}end\u{0}";
    let r = Response::Error(tricky.to_string());
    assert_eq!(decode_response(&encode_response(&r)), Some(r));
    // the emitted document spells the escapes out and holds no raw control byte
    let text = encode_response(&Response::Error("a\nb\u{1f}".to_string()));
    assert_eq!(text, "{\"Error\":\"a\\nb\\u001f\"}");
    assert!(text.chars().all(|c| c >= ' '));
    // the decoder also takes the short forms serde writes for backspace and form feed
    assert_eq!(
        decode_response("{\"Error\":\"x\\by\\fz\"}"),
        Some(Response::Error("x\u{8}y\u{c}z".to_string()))
    );
}

#[test]
fn round_trip_strings_with_escapes() {
    let tricky = "a\"b\\c\"\"";
    let c = Command::QueueJob {
        user: user(7, tricky),
        image_id: "x\\\"y".to_string(),
        gpus: vec![0],
    };
    match decode_command(&encode_command(&c)).expect("decodes") {
        Command::QueueJob { user: u, image_id, .. } => {
            assert_eq!(u.name, tricky);
            assert_eq!(image_id, "x\\\"y");
        }
        other => panic!("wrong variant: {:?}", other),
    }
}

#[test]
fn round_trip_my_jobs() {
    let c = Command::MyJobs { uid: 0 };
    assert_eq!(decode_command(&encode_command(&c)), Some(c));
}

#[test]
fn round_trip_responses() {
    let samples = vec![
        Response::Success,
        Response::Error("unknown device".to_string()),
        Response::GPUStatus { locks: vec![] },
        Response::GPUStatus { locks: vec![None, Some(user(5, "eve")), None] },
        Response::ActiveJobs(vec![]),
        Response::ActiveJobs(vec![
            JobDesc { id: 17, owner: user(5, "eve"), requested_gpus: vec![0, 1] },
            JobDesc { id: 40000, owner: user(6, "mallory"), requested_gpus: vec![] },
        ]),
        Response::MyJobs(vec![]),
        Response::MyJobs(vec![QueuedJobDesc {
            queue_position: 2,
            job: JobDesc { id: 9, owner: user(5, "eve"), requested_gpus: vec![3] },
        }]),
    ];
    for r in samples {
        let text = encode_response(&r);
        let decoded = decode_response(&text).expect("decodes");
        assert_eq!(decoded, r);
        // name fields survive even though user equality goes by uid alone
        if let (Response::GPUStatus { locks: a }, Response::GPUStatus { locks: b }) =
            (&decoded, &r)
        {
            for (x, y) in a.iter().zip(b.iter()) {
                assert_eq!(
                    x.as_ref().map(|u| u.name.clone()),
                    y.as_ref().map(|u| u.name.clone())
                );
            }
        }
    }
}

#[test]
fn round_trip_extreme_numbers() {
    let c = Command::SetWatch { device_number: u32::MAX, watching: false };
    assert_eq!(decode_command(&encode_command(&c)), Some(c));
    let r = Response::ActiveJobs(vec![JobDesc {
        id: u16::MAX,
        owner: user(usize::MAX, "big"),
        requested_gpus: vec![u32::MAX, 0],
    }]);
    assert_eq!(decode_response(&encode_response(&r)), Some(r));
}

#[test]
fn malformed_commands_are_rejected() {
    for bad in [
        "",
        "Status",
        "\"Status\" ",
        " \"Status\"",
        "\"status\"",
        "\"Statusx\"",
        "{\"SetWatch\":{}}",
        "{\"SetWatch\":{\"device_number\":,\"watching\":true}}",
        "{\"SetWatch\":{\"device_number\":1,\"watching\":maybe}}",
        "{\"SetWatch\":{\"device_number\":1,\"watching\":true}}x",
        "{\"SetWatch\":{\"device_number\":4294967296,\"watching\":true}}",
        "{\"MyJobs\":{\"uid\":99999999999999999999999999}}",
        "{\"QueueJob\":{\"user\":{\"name\":\"a\",\"uid\":1},\"image_id\":\"i\",\"gpus\":[1,]}}",
        "{\"QueueJob\":{\"user\":{\"name\":\"a\",\"uid\":1},\"image_id\":\"i\",\"gpus\":[}}",
        "{\"QueueJob\":{\"user\":{\"name\":\"unterminated,\"uid\":1},\"image_id\":\"i\",\"gpus\":[]}}",
        "null",
        "42",
        "{}",
    ] {
        assert_eq!(decode_command(bad), None, "should reject {:?}", bad);
    }
}

#[test]
fn malformed_responses_are_rejected() {
    for bad in ["", "\"Success\"!", "{\"Error\":}", "{\"GPUStatus\":{\"locks\":[nul]}}"] {
        assert!(decode_response(bad).is_none(), "should reject {:?}", bad);
    }
}

#[test]
fn config_parses() {
    let c = parse_config("{\"pings_api_key\":\"SECRET-REDACTED\"}").expect("parses");
    assert_eq!(c.pings_api_key, "SECRET-REDACTED");
    assert!(parse_config("{}").is_none());
    assert!(parse_config("{\"pings_api_key\":3}").is_none());
    assert!(parse_config("{\"pings_api_key\" \"k\"}").is_none());
    assert!(parse_config("\"pings_api_key\":\"k\"").is_none());
}

#[test]
fn config_accepts_hand_written_whitespace() {
    // a hand-written file: newlines, indentation, trailing newline
    let text = "{\n  \"pings_api_key\": \"SECRET-REDACTED\"\n}\n";
    let c = parse_config(text).expect("valid JSON config parses");
    assert_eq!(c.pings_api_key, "SECRET-REDACTED");

    let c = parse_config(" { \"pings_api_key\" : \"k\" } ").expect("parses");
    assert_eq!(c.pings_api_key, "k");
    let c = parse_config("{\"pings_api_key\":\"k\"} ").expect("trailing blank parses");
    assert_eq!(c.pings_api_key, "k");
    // whitespace inside the key's own quotes is another key, not accepted
    assert!(parse_config("{ \" pings_api_key\": \"k\" }").is_none());
}

#[test]
fn emitted_json_is_valid_for_independent_parser() {
    let c = Command::QueueJob {
        user: user(1000, "al\"ice"),
        image_id: "img:1".to_string(),
        gpus: vec![0, 2],
    };
    let text = encode_command(&c);
    let v: serde_json::Value = serde_json::from_str(&text).expect("valid JSON");
    assert_eq!(v["QueueJob"]["user"]["name"], serde_json::Value::from("al\"ice"));
    assert_eq!(v["QueueJob"]["user"]["uid"], serde_json::Value::from(1000u64));
    assert_eq!(v["QueueJob"]["image_id"], serde_json::Value::from("img:1"));
    assert_eq!(v["QueueJob"]["gpus"][1], serde_json::Value::from(2u64));

    let r = Response::GPUStatus { locks: vec![None, Some(user(5, "eve"))] };
    let text = encode_response(&r);
    let v: serde_json::Value = serde_json::from_str(&text).expect("valid JSON");
    assert!(v["GPUStatus"]["locks"][0].is_null());
    assert_eq!(v["GPUStatus"]["locks"][1]["uid"], serde_json::Value::from(5u64));
}

#[test]
fn serde_encoded_commands_are_understood() {
    // what serde's externally tagged convention produces for these variants
    let text = "{\"SetWatch\":{\"device_number\":2,\"watching\":false}}";
    assert_eq!(
        decode_command(text),
        Some(Command::SetWatch { device_number: 2, watching: false })
    );
    assert_eq!(decode_command("\"Kill\""), Some(Command::Kill));
}
