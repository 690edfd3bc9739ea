use reconcile_engine::dispatch::{parse_coalesce, parse_high_water, parse_request, validate_collection, Request};
use reconcile_engine::error::EngineError;

fn command_error(r: Result<Request, EngineError>) -> String {
    match r {
        Err(e) => {
            assert_eq!(e.code(), 4);
            e.to_string()
        }
        Ok(_) => panic!("expected a command error"),
    }
}

#[test]
fn set_get_via_dispatch() {
    match parse_request(r#"{"cmd":"set","args":["a","1"]}"#).unwrap() {
        Request::SetValue(k, v) => {
            assert_eq!(k, "a");
            assert_eq!(v, "1");
        }
        _ => panic!("not a set"),
    }
    match parse_request(r#"{"cmd":"get","args":["nope"]}"#).unwrap() {
        Request::Get(k) => assert_eq!(k, "nope"),
        _ => panic!("not a get"),
    }
}

#[test]
fn unknown_command_is_error_envelope() {
    let msg = command_error(parse_request(r#"{"cmd":"flushall","args":[]}"#));
    assert_eq!(msg, "command error: unknown command 'flushall'");
}

#[test]
fn malformed_request_is_error_envelope_not_panic() {
    let msg = command_error(parse_request("{nope"));
    assert!(msg.starts_with("command error: bad request: "), "{msg}");
}

#[test]
fn missing_cmd_and_arguments() {
    assert_eq!(command_error(parse_request(r#"{"args":[]}"#)), "command error: missing cmd");
    assert_eq!(command_error(parse_request(r#"[1,2]"#)), "command error: missing cmd");
    assert_eq!(command_error(parse_request(r#"{"cmd":"set","args":["a"]}"#)), "command error: missing argument 1");
    assert_eq!(command_error(parse_request(r#"{"cmd":"hset"}"#)), "command error: missing argument 0");
    // expire reads its ttl (argument 1) first
    assert_eq!(command_error(parse_request(r#"{"cmd":"expire","args":[]}"#)), "command error: missing argument 1");
    assert_eq!(
        command_error(parse_request(r#"{"cmd":"expire","args":["a","soon"]}"#)),
        "command error: ttl must be integer ms"
    );
    assert_eq!(
        command_error(parse_request(r#"{"cmd":"unsubscribe","args":["-1"]}"#)),
        "command error: id must be integer"
    );
}

#[test]
fn non_string_arguments_are_their_json() {
    match parse_request(r#"{"cmd":"mget","args":["a",2,true,null,{"x":1}]}"#).unwrap() {
        Request::Mget(args) => assert_eq!(args, vec!["a", "2", "true", "null", "{\"x\":1}"]),
        _ => panic!("not an mget"),
    }
    match parse_request(r#"{"cmd":"expire","args":["a",1000]}"#).unwrap() {
        Request::Expire(k, t) => {
            assert_eq!(k, "a");
            assert_eq!(t, 1000);
        }
        _ => panic!("not an expire"),
    }
    match parse_request(r#"{"cmd":"deadLetterCount"}"#).unwrap() {
        Request::DeadLetterCount => {}
        _ => panic!("not a count"),
    }
    match parse_request(r#"{"cmd":"deadLetterClear","args":["api"]}"#).unwrap() {
        Request::DeadLetterClear(Some(s)) => assert_eq!(s, "api"),
        _ => panic!("not a clear"),
    }
    match parse_request(r#"{"cmd":"unsubscribe","args":["+7"]}"#).unwrap() {
        Request::Unsubscribe(id) => assert_eq!(id, 7),
        _ => panic!("not an unsubscribe"),
    }
}

#[test]
fn register_source_rejects_colon_and_empty_collection() {
    for bad in ["crm:people", ""] {
        match validate_collection(bad) {
            Err(e) => {
                assert_eq!(e.code(), 4);
                assert_eq!(
                    e.to_string(),
                    format!("command error: invalid collection name '{bad}' (must be non-empty, no ':')")
                );
            }
            Ok(()) => panic!("collection {bad:?} was accepted"),
        }
    }
    assert!(validate_collection("people").is_ok());
}

#[test]
fn kv_config_arguments() {
    assert_eq!(parse_high_water(&vec!["4".into(), "1".into()]).unwrap(), 4);
    assert!(parse_coalesce(&vec!["4".into(), "1".into()]).unwrap());
    assert_eq!(parse_high_water(&vec!["100000".into(), "0".into()]).unwrap(), 100000);
    assert!(!parse_coalesce(&vec!["100000".into(), "0".into()]).unwrap());
    let e = parse_high_water(&vec!["x".into()]).unwrap_err();
    assert_eq!(e.to_string(), "command error: high_water must be an integer");
    let e = parse_high_water(&vec![]).unwrap_err();
    assert_eq!(e.to_string(), "command error: missing argument 0");
    // one argument: the high-water mark reads, the switch is missing
    assert_eq!(parse_high_water(&vec!["4".into()]).unwrap(), 4);
    let e = parse_coalesce(&vec!["4".into()]).unwrap_err();
    assert_eq!(e.to_string(), "command error: missing argument 1");
}

#[test]
fn hmgetall_reads_every_key_in_order() {
    match parse_request(r#"{"cmd":"hmgetall","args":["entry:people:0","entry:people:nope","entry:missing:1"]}"#)
        .unwrap()
    {
        Request::HMGetAll(keys) => {
            assert_eq!(keys, vec!["entry:people:0", "entry:people:nope", "entry:missing:1"])
        }
        _ => panic!("not an hmgetall"),
    }
    assert_eq!(command_error(parse_request(r#"{"cmd":"hmgetall","args":[]}"#)), "command error: missing argument 0");
}
