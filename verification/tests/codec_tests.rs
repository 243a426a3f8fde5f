use token_ring::error::RunError;
use token_ring::message::HotPotato;
use token_ring::message::Request;
use token_ring::message::Response;
use token_ring::message::StartFlag;
use token_ring::peer::Peer;

#[test]
fn start_flag_round_trip_true() {
    let encoded = StartFlag(true).to_json_string();
    assert_eq!(encoded, "true");
    let decoded = StartFlag::from_json_string(&encoded).unwrap();
    assert_eq!(decoded, StartFlag(true));
}

#[test]
fn start_flag_round_trip_false() {
    let encoded = StartFlag(false).to_json_string();
    assert_eq!(encoded, "false");
    let decoded = StartFlag::from_json_string(&encoded).unwrap();
    assert_eq!(decoded, StartFlag(false));
}

#[test]
fn hot_potato_round_trip_true() {
    let encoded = HotPotato(true).to_json_string();
    assert_eq!(encoded, "true");
    let decoded = HotPotato::from_json_string(&encoded).unwrap();
    assert_eq!(decoded, HotPotato(true));
}

#[test]
fn hot_potato_round_trip_false() {
    let encoded = HotPotato(false).to_json_string();
    assert_eq!(encoded, "false");
    let decoded = HotPotato::from_json_string(&encoded).unwrap();
    assert_eq!(decoded, HotPotato(false));
}

#[test]
fn fresh_hot_potato_carries_true() {
    assert_eq!(HotPotato::new(), HotPotato(true));
    assert_eq!(HotPotato::new().to_json_string(), "true");
}

#[test]
fn malformed_lines_are_rejected() {
    assert!(HotPotato::from_json_string("").is_err());
    assert!(HotPotato::from_json_string("True").is_err());
    assert!(HotPotato::from_json_string("true ").is_err());
    assert!(HotPotato::from_json_string("banana").is_err());
    assert!(HotPotato::from_json_string("{\"Token\":true}").is_err());
    assert!(StartFlag::from_json_string("").is_err());
    assert!(StartFlag::from_json_string("tru").is_err());
    assert!(StartFlag::from_json_string("falsee").is_err());
}

#[test]
fn request_wire_format() {
    assert_eq!(Request::Add(1, 2).to_json_string(), "{\"Add\":[1,2]}");
    assert_eq!(Request::Sub(-7, 0).to_json_string(), "{\"Sub\":[-7,0]}");
    assert_eq!(
        Request::Mul(i32::MAX, i32::MIN).to_json_string(),
        "{\"Mul\":[2147483647,-2147483648]}"
    );
    assert_eq!(Request::Div(0, 10).to_json_string(), "{\"Div\":[0,10]}");
}

#[test]
fn request_round_trips() {
    let requests = vec![
        Request::Add(1, 2),
        Request::Sub(-7, 0),
        Request::Mul(i32::MAX, i32::MIN),
        Request::Div(0, -1),
    ];
    for request in requests {
        let encoded = request.to_json_string();
        let decoded = Request::from_json_string(&encoded).unwrap();
        assert_eq!(decoded, request);
    }
}

#[test]
fn request_decode_exact_values() {
    assert_eq!(
        Request::from_json_string("{\"Div\":[6,3]}").unwrap(),
        Request::Div(6, 3)
    );
    assert_eq!(
        Request::from_json_string("{\"Add\":[-2147483648,2147483647]}").unwrap(),
        Request::Add(i32::MIN, i32::MAX)
    );
}

#[test]
fn malformed_requests_are_rejected() {
    assert!(Request::from_json_string("").is_err());
    assert!(Request::from_json_string("{\"Add\":[1 2]}").is_err());
    assert!(Request::from_json_string("{\"Foo\":[1,2]}").is_err());
    assert!(Request::from_json_string("{\"add\":[1,2]}").is_err());
    assert!(Request::from_json_string("{\"Add\":[01,2]}").is_err());
    assert!(Request::from_json_string("{\"Add\":[-0,2]}").is_err());
    assert!(Request::from_json_string("{\"Add\":[1,2]").is_err());
    assert!(Request::from_json_string("{\"Add\":[2147483648,0]}").is_err());
    assert!(Request::from_json_string("{\"Add\":[,2]}").is_err());
    assert!(Request::from_json_string("{\"Add\":[1,]}").is_err());
}

#[test]
fn response_wire_format() {
    let okay = Response::Okay { value: "12".to_string(), kind: "i32".to_string() };
    assert_eq!(okay.to_json_string(), "{\"Ok\":{\"value\":\"12\",\"type\":\"i32\"}}");
    let fail = Response::Fail("division by zero".to_string());
    assert_eq!(fail.to_json_string(), "{\"Err\":\"division by zero\"}");
    let quoted = Response::Fail("a\"b\\c".to_string());
    assert_eq!(quoted.to_json_string(), "{\"Err\":\"a\\\"b\\\\c\"}");
}

#[test]
fn response_round_trips() {
    let cases = vec![
        ("12".to_string(), "i32".to_string()),
        ("".to_string(), "".to_string()),
        ("he said \"hi\"".to_string(), "back\\slash".to_string()),
    ];
    for (value, kind) in cases {
        let okay = Response::Okay { value: value.clone(), kind: kind.clone() };
        let encoded = okay.to_json_string();
        match Response::from_json_string(&encoded).unwrap() {
            Response::Okay { value: v, kind: k } => {
                assert_eq!(v, value);
                assert_eq!(k, kind);
            },
            Response::Fail(_) => panic!("decoded the wrong shape"),
        }
    }
    let fail = Response::Fail("some \"quoted\" cause".to_string());
    let encoded = fail.to_json_string();
    match Response::from_json_string(&encoded).unwrap() {
        Response::Fail(message) => assert_eq!(message, "some \"quoted\" cause"),
        Response::Okay { .. } => panic!("decoded the wrong shape"),
    }
}

#[test]
fn malformed_responses_are_rejected() {
    assert!(Response::from_json_string("").is_err());
    assert!(Response::from_json_string("true").is_err());
    assert!(Response::from_json_string("{\"Err\":\"unterminated}").is_err());
    assert!(Response::from_json_string("{\"Err\":\"bad escape \\x\"}").is_err());
    assert!(Response::from_json_string("{\"Err\":\"trailing\"}}").is_err());
    assert!(Response::from_json_string("{\"Ok\":{\"value\":\"1\"}}").is_err());
    assert!(Response::from_json_string("{\"Ok\":{\"value\":\"1\",\"type\":\"i32\"}").is_err());
}

#[test]
fn expect_start_flag_accepts_only_start_frames() {
    assert_eq!(Peer::expect_start_flag(Some("true")), Ok(StartFlag(true)));
    assert_eq!(Peer::expect_start_flag(Some("false")), Ok(StartFlag(false)));
    assert_eq!(Peer::expect_start_flag(Some("nonsense")), Err(RunError::Protocol));
    assert_eq!(Peer::expect_start_flag(Some("")), Err(RunError::Protocol));
    assert_eq!(Peer::expect_start_flag(None), Err(RunError::Protocol));
}
