//! The JSON command protocol: a request `{"cmd": name, "args": [...]}` is
//! read into a [`Request`], checking the arguments each command needs in
//! the order the command reads them.
use vstd::prelude::*;
use crate::error::EngineError;
use crate::fieldmap::compare_text;
use crate::json::{json_parse, parse_json, JsonNode, JsonValue};
use crate::normalize::{find_member, member};
use crate::text::{
    nat_text,
    parse_i64,
    parse_unsigned,
    push_str_chars,
    push_u64_text,
    spec_parse_i64,
    spec_parse_unsigned,
    str_chars,
    string_from_chars,
};

verus! {

/// A command read from a request.
pub enum Request {
    Get(String),
    SetValue(String, String),
    Del(String),
    Mget(Vec<String>),
    Scan(String),
    Hget(String, String),
    Hset(String, String, String),
    Hgetall(String),
    /// One `hgetall` per key, in order.
    HMGetAll(Vec<String>),
    Expire(String, i64),
    Ttl(String),
    KvFlush,
    /// Its arguments are read after the queue is flushed (see `parse_high_water`
    /// and `parse_coalesce`).
    KvConfig(Vec<String>),
    Subscribe(String),
    Unsubscribe(u64),
    /// A source configuration as JSON text.
    RegisterSource(String),
    DeadLetterClear(Option<String>),
    Ingest(String, String),
    IngestFile(String, String),
    DeadLetterCount,
}

/// A request as plain values.
pub enum RequestSpec {
    Get(Seq<char>),
    SetValue(Seq<char>, Seq<char>),
    Del(Seq<char>),
    Mget(Seq<Seq<char>>),
    Scan(Seq<char>),
    Hget(Seq<char>, Seq<char>),
    Hset(Seq<char>, Seq<char>, Seq<char>),
    Hgetall(Seq<char>),
    HMGetAll(Seq<Seq<char>>),
    Expire(Seq<char>, i64),
    Ttl(Seq<char>),
    KvFlush,
    KvConfig(Seq<Seq<char>>),
    Subscribe(Seq<char>),
    Unsubscribe(u64),
    RegisterSource(Seq<char>),
    DeadLetterClear(Option<Seq<char>>),
    Ingest(Seq<char>, Seq<char>),
    IngestFile(Seq<char>, Seq<char>),
    DeadLetterCount,
}

/// Strings as texts.
pub open spec fn texts(v: Seq<String>) -> Seq<Seq<char>> {
    v.map_values(|s: String| s@)
}

impl View for Request {
    type V = RequestSpec;

    open spec fn view(&self) -> RequestSpec {
        match self {
            Request::Get(a) => RequestSpec::Get(a@),
            Request::SetValue(a, b) => RequestSpec::SetValue(a@, b@),
            Request::Del(a) => RequestSpec::Del(a@),
            Request::Mget(v) => RequestSpec::Mget(texts(v@)),
            Request::Scan(a) => RequestSpec::Scan(a@),
            Request::Hget(a, b) => RequestSpec::Hget(a@, b@),
            Request::Hset(a, b, c) => RequestSpec::Hset(a@, b@, c@),
            Request::Hgetall(a) => RequestSpec::Hgetall(a@),
            Request::HMGetAll(v) => RequestSpec::HMGetAll(texts(v@)),
            Request::Expire(a, t) => RequestSpec::Expire(a@, *t),
            Request::Ttl(a) => RequestSpec::Ttl(a@),
            Request::KvFlush => RequestSpec::KvFlush,
            Request::KvConfig(v) => RequestSpec::KvConfig(texts(v@)),
            Request::Subscribe(a) => RequestSpec::Subscribe(a@),
            Request::Unsubscribe(id) => RequestSpec::Unsubscribe(*id),
            Request::RegisterSource(a) => RequestSpec::RegisterSource(a@),
            Request::DeadLetterClear(o) => RequestSpec::DeadLetterClear(
                match o {
                    Some(s) => Some(s@),
                    None => None,
                },
            ),
            Request::Ingest(a, b) => RequestSpec::Ingest(a@, b@),
            Request::IngestFile(a, b) => RequestSpec::IngestFile(a@, b@),
            Request::DeadLetterCount => RequestSpec::DeadLetterCount,
        }
    }
}

/// Why argument `i` is missing.
pub open spec fn missing_arg_msg(i: nat) -> Seq<char> {
    "missing argument "@ + nat_text(i)
}

/// Why a command was not recognised.
pub open spec fn unknown_cmd_msg(cmd: Seq<char>) -> Seq<char> {
    "unknown command '"@ + cmd + "'"@
}

/// A command that reads its first `n` arguments in order: the first missing
/// one is reported.
pub open spec fn lacks(args: Seq<Seq<char>>, n: nat) -> bool {
    args.len() < n
}

/// The request a command name and its arguments make, or why none does.
pub open spec fn request_spec(cmd: Seq<char>, args: Seq<Seq<char>>) -> Result<RequestSpec, Seq<char>> {
    let missing = Err(missing_arg_msg(args.len()));
    if cmd == "get"@ {
        if lacks(args, 1) { missing } else { Ok(RequestSpec::Get(args[0])) }
    } else if cmd == "set"@ {
        if lacks(args, 2) { missing } else { Ok(RequestSpec::SetValue(args[0], args[1])) }
    } else if cmd == "del"@ {
        if lacks(args, 1) { missing } else { Ok(RequestSpec::Del(args[0])) }
    } else if cmd == "mget"@ {
        Ok(RequestSpec::Mget(args))
    } else if cmd == "scan"@ {
        if lacks(args, 1) { missing } else { Ok(RequestSpec::Scan(args[0])) }
    } else if cmd == "hget"@ {
        if lacks(args, 2) { missing } else { Ok(RequestSpec::Hget(args[0], args[1])) }
    } else if cmd == "hset"@ {
        if lacks(args, 3) { missing } else { Ok(RequestSpec::Hset(args[0], args[1], args[2])) }
    } else if cmd == "hgetall"@ {
        if lacks(args, 1) { missing } else { Ok(RequestSpec::Hgetall(args[0])) }
    } else if cmd == "hmgetall"@ {
        // every argument is a key; at least one is needed
        if lacks(args, 1) { missing } else { Ok(RequestSpec::HMGetAll(args)) }
    } else if cmd == "expire"@ {
        // the ttl (argument 1) is read before the key
        if lacks(args, 2) {
            Err(missing_arg_msg(1))
        } else {
            match spec_parse_i64(args[1]) {
                None => Err("ttl must be integer ms"@),
                Some(t) => Ok(RequestSpec::Expire(args[0], t)),
            }
        }
    } else if cmd == "ttl"@ {
        if lacks(args, 1) { missing } else { Ok(RequestSpec::Ttl(args[0])) }
    } else if cmd == "kvFlush"@ {
        Ok(RequestSpec::KvFlush)
    } else if cmd == "kvConfig"@ {
        Ok(RequestSpec::KvConfig(args))
    } else if cmd == "subscribe"@ {
        if lacks(args, 1) { missing } else { Ok(RequestSpec::Subscribe(args[0])) }
    } else if cmd == "unsubscribe"@ {
        if lacks(args, 1) {
            missing
        } else {
            match spec_parse_unsigned(args[0], u64::MAX as nat) {
                None => Err("id must be integer"@),
                Some(id) => Ok(RequestSpec::Unsubscribe(id as u64)),
            }
        }
    } else if cmd == "registerSource"@ {
        if lacks(args, 1) { missing } else { Ok(RequestSpec::RegisterSource(args[0])) }
    } else if cmd == "deadLetterClear"@ {
        Ok(RequestSpec::DeadLetterClear(if args.len() > 0 { Some(args[0]) } else { None }))
    } else if cmd == "ingest"@ {
        if lacks(args, 2) { missing } else { Ok(RequestSpec::Ingest(args[0], args[1])) }
    } else if cmd == "ingestFile"@ {
        if lacks(args, 2) { missing } else { Ok(RequestSpec::IngestFile(args[0], args[1])) }
    } else if cmd == "deadLetterCount"@ {
        Ok(RequestSpec::DeadLetterCount)
    } else {
        Err(unknown_cmd_msg(cmd))
    }
}

/// The command name a request answers to.
pub open spec fn request_name(r: RequestSpec) -> Seq<char> {
    match r {
        RequestSpec::Get(_) => "get"@,
        RequestSpec::SetValue(_, _) => "set"@,
        RequestSpec::Del(_) => "del"@,
        RequestSpec::Mget(_) => "mget"@,
        RequestSpec::Scan(_) => "scan"@,
        RequestSpec::Hget(_, _) => "hget"@,
        RequestSpec::Hset(_, _, _) => "hset"@,
        RequestSpec::Hgetall(_) => "hgetall"@,
        RequestSpec::HMGetAll(_) => "hmgetall"@,
        RequestSpec::Expire(_, _) => "expire"@,
        RequestSpec::Ttl(_) => "ttl"@,
        RequestSpec::KvFlush => "kvFlush"@,
        RequestSpec::KvConfig(_) => "kvConfig"@,
        RequestSpec::Subscribe(_) => "subscribe"@,
        RequestSpec::Unsubscribe(_) => "unsubscribe"@,
        RequestSpec::RegisterSource(_) => "registerSource"@,
        RequestSpec::DeadLetterClear(_) => "deadLetterClear"@,
        RequestSpec::Ingest(_, _) => "ingest"@,
        RequestSpec::IngestFile(_, _) => "ingestFile"@,
        RequestSpec::DeadLetterCount => "deadLetterCount"@,
    }
}

/// A request's text operands in the order its fields list them.
pub open spec fn request_operands(r: RequestSpec) -> Seq<Seq<char>> {
    match r {
        RequestSpec::Get(a) => seq![a],
        RequestSpec::SetValue(a, b) => seq![a, b],
        RequestSpec::Del(a) => seq![a],
        RequestSpec::Mget(v) => v,
        RequestSpec::Scan(a) => seq![a],
        RequestSpec::Hget(a, b) => seq![a, b],
        RequestSpec::Hset(a, b, c) => seq![a, b, c],
        RequestSpec::Hgetall(a) => seq![a],
        RequestSpec::HMGetAll(v) => v,
        RequestSpec::Expire(a, _) => seq![a],
        RequestSpec::Ttl(a) => seq![a],
        RequestSpec::KvFlush => seq![],
        RequestSpec::KvConfig(v) => v,
        RequestSpec::Subscribe(a) => seq![a],
        RequestSpec::Unsubscribe(_) => seq![],
        RequestSpec::RegisterSource(a) => seq![a],
        RequestSpec::DeadLetterClear(o) => match o {
            Some(a) => seq![a],
            None => seq![],
        },
        RequestSpec::Ingest(a, b) => seq![a, b],
        RequestSpec::IngestFile(a, b) => seq![a, b],
        RequestSpec::DeadLetterCount => seq![],
    }
}

/// Commands take their arguments positionally: a request read from a
/// command name and its arguments is a request of that command, its text
/// operands are the leading arguments in order (the i-th operand is
/// argument i), and its numbers are read from their argument's position
/// (`expire`'s milliseconds from argument 1, `unsubscribe`'s id from
/// argument 0).
pub proof fn lemma_request_takes_arguments_in_order(cmd: Seq<char>, args: Seq<Seq<char>>)
    ensures
        request_spec(cmd, args) matches Ok(r) ==> {
            &&& request_name(r) == cmd
            &&& request_operands(r).len() <= args.len()
            &&& forall|i: int| 0 <= i < request_operands(r).len() ==> #[trigger] request_operands(r)[i] == args[i]
            &&& r matches RequestSpec::Expire(_, t) ==> args.len() >= 2 && spec_parse_i64(args[1]) == Some(t)
            &&& r matches RequestSpec::Unsubscribe(id) ==> args.len() >= 1 && spec_parse_unsigned(
                args[0],
                u64::MAX as nat,
            ) == Some(id as nat)
        },
{
}

/// The text an argument stands for: a JSON string's contents, any other
/// value's compact JSON.
pub open spec fn arg_text(n: JsonNode) -> Seq<char> {
    match n.value {
        JsonValue::Str(s) => s@,
        _ => n.text@,
    }
}

/// The request's `cmd` member when it is a string.
pub open spec fn cmd_of(doc: JsonNode) -> Option<Seq<char>> {
    match doc.value {
        JsonValue::Object(ms) => match member(ms@, "cmd"@) {
            Some(c) => match c.value {
                JsonValue::Str(s) => Some(s@),
                _ => None,
            },
            None => None,
        },
        _ => None,
    }
}

/// The request's `args` member when it is an array, as texts; otherwise none.
pub open spec fn args_of(doc: JsonNode) -> Seq<Seq<char>> {
    match doc.value {
        JsonValue::Object(ms) => match member(ms@, "args"@) {
            Some(a) => match a.value {
                JsonValue::Array(items) => items@.map_values(|n: JsonNode| arg_text(n)),
                _ => Seq::empty(),
            },
            None => Seq::empty(),
        },
        _ => Seq::empty(),
    }
}

/// A parse result as plain values.
pub open spec fn parsed_view(parsed: Result<JsonNode, String>) -> Result<JsonNode, Seq<char>> {
    match parsed {
        Ok(n) => Ok(n),
        Err(e) => Err(e@),
    }
}

/// `r` is the request `spec` describes, or the command error it names.
pub open spec fn request_matches(r: Result<Request, EngineError>, spec: Result<RequestSpec, Seq<char>>) -> bool {
    match r {
        Ok(q) => spec == Ok::<RequestSpec, Seq<char>>(q@),
        Err(e) => e matches EngineError::Command(m) && spec == Err::<RequestSpec, Seq<char>>(m@),
    }
}

fn command_error(v: &Vec<char>) -> (e: EngineError)
    ensures
        e matches EngineError::Command(m) && m@ == v@,
{
    EngineError::Command(string_from_chars(v))
}

fn missing_arg(i: usize) -> (e: EngineError)
    ensures
        e matches EngineError::Command(m) && m@ == missing_arg_msg(i as nat),
{
    let mut v: Vec<char> = Vec::new();
    push_str_chars(&mut v, "missing argument ");
    push_u64_text(&mut v, i as u64);
    command_error(&v)
}

fn text_error(s: &str) -> (e: EngineError)
    ensures
        e matches EngineError::Command(m) && m@ == s@,
{
    let mut v: Vec<char> = Vec::new();
    push_str_chars(&mut v, s);
    command_error(&v)
}

fn is(cmd: &str, name: &str) -> (r: bool)
    ensures
        r == (cmd@ == name@),
{
    compare_text(cmd, name) == 0
}

/// Argument `i`, or the command error naming it as missing.
pub fn arg(args: &Vec<String>, i: usize) -> (r: Result<String, EngineError>)
    ensures
        match r {
            Ok(a) => i < args@.len() && a@ == args@[i as int]@,
            Err(e) => i >= args@.len() && (e matches EngineError::Command(m) && m@ == missing_arg_msg(i as nat)),
        },
{
    if i < args.len() {
        Ok(args[i].clone())
    } else {
        Err(missing_arg(i))
    }
}

/// Reads a command name and its arguments into a request (see `request_spec`).
pub fn request_for(cmd: &str, args: Vec<String>) -> (r: Result<Request, EngineError>)
    ensures
        request_matches(r, request_spec(cmd@, texts(args@))),
{
    let ghost a = texts(args@);
    let n = args.len();
    proof {
        reveal_strlit("get");
        reveal_strlit("set");
        reveal_strlit("del");
        reveal_strlit("mget");
        reveal_strlit("scan");
        reveal_strlit("hget");
        reveal_strlit("hset");
        reveal_strlit("hgetall");
        reveal_strlit("hmgetall");
        reveal_strlit("expire");
        reveal_strlit("ttl");
        reveal_strlit("kvFlush");
        reveal_strlit("kvConfig");
        reveal_strlit("subscribe");
        reveal_strlit("unsubscribe");
        reveal_strlit("registerSource");
        reveal_strlit("deadLetterClear");
        reveal_strlit("ingest");
        reveal_strlit("ingestFile");
        reveal_strlit("deadLetterCount");
        assert(a.len() == n);
    }
    if is(cmd, "get") {
        let key = match arg(&args, 0) {
            Ok(a) => a,
            Err(e) => return Err(e),
        };
        Ok(Request::Get(key))
    } else if is(cmd, "set") {
        let key = match arg(&args, 0) {
            Ok(a) => a,
            Err(e) => return Err(e),
        };
        let value = match arg(&args, 1) {
            Ok(a) => a,
            Err(e) => return Err(e),
        };
        Ok(Request::SetValue(key, value))
    } else if is(cmd, "del") {
        let key = match arg(&args, 0) {
            Ok(a) => a,
            Err(e) => return Err(e),
        };
        Ok(Request::Del(key))
    } else if is(cmd, "mget") {
        Ok(Request::Mget(args))
    } else if is(cmd, "scan") {
        let pattern = match arg(&args, 0) {
            Ok(a) => a,
            Err(e) => return Err(e),
        };
        Ok(Request::Scan(pattern))
    } else if is(cmd, "hget") {
        let key = match arg(&args, 0) {
            Ok(a) => a,
            Err(e) => return Err(e),
        };
        let field = match arg(&args, 1) {
            Ok(a) => a,
            Err(e) => return Err(e),
        };
        Ok(Request::Hget(key, field))
    } else if is(cmd, "hset") {
        let key = match arg(&args, 0) {
            Ok(a) => a,
            Err(e) => return Err(e),
        };
        let field = match arg(&args, 1) {
            Ok(a) => a,
            Err(e) => return Err(e),
        };
        let value = match arg(&args, 2) {
            Ok(a) => a,
            Err(e) => return Err(e),
        };
        Ok(Request::Hset(key, field, value))
    } else if is(cmd, "hgetall") {
        let key = match arg(&args, 0) {
            Ok(a) => a,
            Err(e) => return Err(e),
        };
        Ok(Request::Hgetall(key))
    } else if is(cmd, "hmgetall") {
        if n < 1 {
            return Err(missing_arg(0));
        }
        Ok(Request::HMGetAll(args))
    } else if is(cmd, "expire") {
        // the ttl (argument 1) is read before the key
        let ttl_text = match arg(&args, 1) {
            Ok(a) => a,
            Err(e) => return Err(e),
        };
        let ttl_ms = match parse_i64(&str_chars(ttl_text.as_str())) {
            None => return Err(text_error("ttl must be integer ms")),
            Some(t) => t,
        };
        let key = match arg(&args, 0) {
            Ok(a) => a,
            Err(e) => return Err(e),
        };
        Ok(Request::Expire(key, ttl_ms))
    } else if is(cmd, "ttl") {
        let key = match arg(&args, 0) {
            Ok(a) => a,
            Err(e) => return Err(e),
        };
        Ok(Request::Ttl(key))
    } else if is(cmd, "kvFlush") {
        Ok(Request::KvFlush)
    } else if is(cmd, "kvConfig") {
        Ok(Request::KvConfig(args))
    } else if is(cmd, "subscribe") {
        let pattern = match arg(&args, 0) {
            Ok(a) => a,
            Err(e) => return Err(e),
        };
        Ok(Request::Subscribe(pattern))
    } else if is(cmd, "unsubscribe") {
        let id_text = match arg(&args, 0) {
            Ok(a) => a,
            Err(e) => return Err(e),
        };
        match parse_unsigned(&str_chars(id_text.as_str()), u64::MAX) {
            None => Err(text_error("id must be integer")),
            Some(id) => Ok(Request::Unsubscribe(id)),
        }
    } else if is(cmd, "registerSource") {
        let cfg = match arg(&args, 0) {
            Ok(a) => a,
            Err(e) => return Err(e),
        };
        Ok(Request::RegisterSource(cfg))
    } else if is(cmd, "deadLetterClear") {
        if n > 0 {
            Ok(Request::DeadLetterClear(Some(args[0].clone())))
        } else {
            Ok(Request::DeadLetterClear(None))
        }
    } else if is(cmd, "ingest") {
        let source = match arg(&args, 0) {
            Ok(a) => a,
            Err(e) => return Err(e),
        };
        let payload = match arg(&args, 1) {
            Ok(a) => a,
            Err(e) => return Err(e),
        };
        Ok(Request::Ingest(source, payload))
    } else if is(cmd, "ingestFile") {
        let source = match arg(&args, 0) {
            Ok(a) => a,
            Err(e) => return Err(e),
        };
        let path = match arg(&args, 1) {
            Ok(a) => a,
            Err(e) => return Err(e),
        };
        Ok(Request::IngestFile(source, path))
    } else if is(cmd, "deadLetterCount") {
        Ok(Request::DeadLetterCount)
    } else {
        let mut v: Vec<char> = Vec::new();
        push_str_chars(&mut v, "unknown command '");
        push_str_chars(&mut v, cmd);
        push_str_chars(&mut v, "'");
        proof {
            reveal_strlit("unknown command '");
            reveal_strlit("'");
        }
        assert(v@ =~= unknown_cmd_msg(cmd@));
        Err(command_error(&v))
    }
}

fn args_from(doc: &JsonNode) -> (r: Vec<String>)
    ensures
        texts(r@) == args_of(*doc),
{
    let mut out: Vec<String> = Vec::new();
    if let JsonValue::Object(ms) = &doc.value {
        proof {
            reveal_strlit("args");
        }
        if let Some(a) = find_member(ms, "args") {
            if let JsonValue::Array(items) = &a.value {
                let mut i: usize = 0;
                while i < items.len()
                    invariant
                        i <= items@.len(),
                        texts(out@) == items@.take(i as int).map_values(|n: JsonNode| arg_text(n)),
                    decreases items.len() - i,
                {
                    let t = match &items[i].value {
                        JsonValue::Str(s) => s.clone(),
                        _ => items[i].text.clone(),
                    };
                    assert(t@ == arg_text(items@[i as int]));
                    let ghost before = out@;
                    out.push(t);
                    assert(texts(out@) =~= texts(before).push(arg_text(items@[i as int])));
                    assert(items@.take(i + 1) =~= items@.take(i as int).push(items@[i as int]));
                    i = i + 1;
                    assert(texts(out@) =~= items@.take(i as int).map_values(|n: JsonNode| arg_text(n)));
                }
                assert(items@.take(i as int) =~= items@);
                return out;
            }
        }
    }
    assert(texts(out@) =~= Seq::<Seq<char>>::empty());
    out
}

/// The command name and arguments a parsed document carries, or the command
/// error's message.
pub open spec fn command_of(parsed: Result<JsonNode, Seq<char>>) -> Result<(Seq<char>, Seq<Seq<char>>), Seq<char>> {
    match parsed {
        Err(e) => Err("bad request: "@ + e),
        Ok(doc) => match cmd_of(doc) {
            None => Err("missing cmd"@),
            Some(c) => Ok((c, args_of(doc))),
        },
    }
}

/// The request a parsed document makes, or the command error's message.
pub open spec fn request_of(parsed: Result<JsonNode, Seq<char>>) -> Result<RequestSpec, Seq<char>> {
    match command_of(parsed) {
        Err(e) => Err(e),
        Ok((c, args)) => request_spec(c, args),
    }
}

/// Reads the command name and arguments out of a parsed request (see `command_of`).
pub fn command_from(parsed: Result<JsonNode, String>) -> (r: Result<(String, Vec<String>), EngineError>)
    ensures
        match r {
            Ok((c, args)) => command_of(parsed_view(parsed)) == Ok::<(Seq<char>, Seq<Seq<char>>), Seq<char>>((c@, texts(args@))),
            Err(e) => e matches EngineError::Command(m) && command_of(parsed_view(parsed)) == Err::<(Seq<char>, Seq<Seq<char>>), Seq<char>>(m@),
        },
{
    match parsed {
        Err(e) => {
            let mut v: Vec<char> = Vec::new();
            push_str_chars(&mut v, "bad request: ");
            push_str_chars(&mut v, e.as_str());
            proof {
                reveal_strlit("bad request: ");
            }
            Err(command_error(&v))
        },
        Ok(doc) => {
            let cmd = match &doc.value {
                JsonValue::Object(ms) => {
                    proof {
                        reveal_strlit("cmd");
                    }
                    match find_member(ms, "cmd") {
                        Some(c) => match &c.value {
                            JsonValue::Str(s) => Some(s.clone()),
                            _ => None,
                        },
                        None => None,
                    }
                },
                _ => None,
            };
            match cmd {
                None => {
                    proof {
                        reveal_strlit("missing cmd");
                    }
                    Err(text_error("missing cmd"))
                },
                Some(c) => Ok((c, args_from(&doc))),
            }
        },
    }
}

/// Reads the command name and arguments of a JSON request (see `command_of`
/// over serde_json's reading of the text).
pub fn parse_command(request_json: &str) -> (r: Result<(String, Vec<String>), EngineError>)
    ensures
        match r {
            Ok((c, args)) => command_of(json_parse(request_json@)) == Ok::<(Seq<char>, Seq<Seq<char>>), Seq<char>>((c@, texts(args@))),
            Err(e) => e matches EngineError::Command(m) && command_of(json_parse(request_json@)) == Err::<(Seq<char>, Seq<Seq<char>>), Seq<char>>(m@),
        },
{
    let parsed = parse_json(request_json);
    proof {
        assert(parsed_view(parsed) == json_parse(request_json@));
    }
    command_from(parsed)
}

/// Parses a JSON request (see `request_of` over serde_json's reading of the text).
pub fn parse_request(request_json: &str) -> (r: Result<Request, EngineError>)
    ensures
        request_matches(r, request_of(json_parse(request_json@))),
{
    match parse_command(request_json) {
        Err(e) => Err(e),
        Ok((c, args)) => request_for(c.as_str(), args),
    }
}

/// Reads `kvConfig`'s first argument, the high-water mark (an unsigned integer).
pub fn parse_high_water(args: &Vec<String>) -> (r: Result<usize, EngineError>)
    ensures
        match r {
            Ok(hw) => args@.len() >= 1 && spec_parse_unsigned(args@[0]@, usize::MAX as nat) == Some(hw as nat),
            Err(e) => e matches EngineError::Command(m) && (if args@.len() == 0 {
                m@ == missing_arg_msg(0)
            } else {
                spec_parse_unsigned(args@[0]@, usize::MAX as nat) is None && m@ == "high_water must be an integer"@
            }),
        },
{
    let hw_text = match arg(args, 0) {
        Ok(a) => a,
        Err(e) => return Err(e),
    };
    match parse_unsigned(&str_chars(hw_text.as_str()), usize::MAX as u64) {
        None => Err(text_error("high_water must be an integer")),
        Some(h) => Ok(h as usize),
    }
}

/// Reads `kvConfig`'s second argument, the coalescing switch (`"1"` turns it on).
pub fn parse_coalesce(args: &Vec<String>) -> (r: Result<bool, EngineError>)
    ensures
        match r {
            Ok(co) => args@.len() >= 2 && co == (args@[1]@ == "1"@),
            Err(e) => args@.len() < 2 && (e matches EngineError::Command(m) && m@ == missing_arg_msg(1)),
        },
{
    let coalesce = match arg(args, 1) {
        Ok(a) => a,
        Err(e) => return Err(e),
    };
    Ok(is(coalesce.as_str(), "1"))
}

/// Why a collection name was refused.
pub open spec fn bad_collection_msg(c: Seq<char>) -> Seq<char> {
    "invalid collection name '"@ + c + "' (must be non-empty, no ':')"@
}

/// A collection name must be non-empty and free of `:` (which separates the
/// parts of `entry:{collection}:{key}`).
pub fn validate_collection(collection: &str) -> (r: Result<(), EngineError>)
    ensures
        match r {
            Ok(()) => collection@.len() > 0 && !collection@.contains(':'),
            Err(e) => !(collection@.len() > 0 && !collection@.contains(':')) && (e matches EngineError::Command(m)
                && m@ == bad_collection_msg(collection@)),
        },
{
    let cs = str_chars(collection);
    let mut ok = cs.len() > 0;
    let mut i: usize = 0;
    while i < cs.len()
        invariant
            i <= cs@.len(),
            cs@ == collection@,
            ok == (cs@.len() > 0 && forall|j: int| 0 <= j < i ==> cs@[j] != ':'),
        decreases cs.len() - i,
    {
        if cs[i] == ':' {
            ok = false;
        }
        i = i + 1;
    }
    if ok {
        Ok(())
    } else {
        let mut v: Vec<char> = Vec::new();
        push_str_chars(&mut v, "invalid collection name '");
        push_str_chars(&mut v, collection);
        push_str_chars(&mut v, "' (must be non-empty, no ':')");
        proof {
            reveal_strlit("invalid collection name '");
            reveal_strlit("' (must be non-empty, no ':')");
        }
        assert(v@ =~= bad_collection_msg(collection@));
        Err(command_error(&v))
    }
}

} // verus!
