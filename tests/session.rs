use scribunto::session::{
    alias_of, chunk_of, cleanup_chunks, encode_message, escape_chunk, functions_of, reply, status_of,
};
use scribunto::{
    encode, frame, read_header, undouble, FrameError, FromLuaMessage, LuaError, MessageError, LuaInstance, LuaInteger,
    LuaKey, LuaReceiver, LuaSender, LuaString, LuaTable, LuaValue, Step, ToLuaMessage,
};

fn s(x: &str) -> LuaString {
    LuaString::new(x)
}

fn text_of(v: &LuaString) -> String {
    String::from_utf8(v.as_raw().to_vec()).unwrap()
}

/// A framed message as the interpreter sends it.
fn inbound(t: LuaTable) -> Vec<u8> {
    frame(&encode(&LuaValue::Table(t)))
}

fn call_message(id: &str, arg: &str) -> Vec<u8> {
    let mut args = LuaTable::new();
    args.insert(LuaKey::index(1), LuaValue::String(s(arg)));
    let mut t = LuaTable::new();
    t.insert(LuaKey::name("op"), LuaValue::String(s("call")));
    t.insert(LuaKey::name("id"), LuaValue::String(s(id)));
    t.insert(LuaKey::name("nargs"), LuaValue::Integer(LuaInteger::new(1)));
    t.insert(LuaKey::name("args"), LuaValue::Table(args));
    inbound(t)
}

fn return_message(result: &str) -> Vec<u8> {
    let mut values = LuaTable::new();
    values.insert(LuaKey::index(1), LuaValue::String(s(result)));
    let mut t = LuaTable::new();
    t.insert(LuaKey::name("op"), LuaValue::String(s("return")));
    t.insert(LuaKey::name("nvalues"), LuaValue::Integer(LuaInteger::new(1)));
    t.insert(LuaKey::name("values"), LuaValue::Table(values));
    inbound(t)
}

/// A transport that replays scripted bytes and records what is sent.
struct FakeTransport {
    script: Vec<u8>,
    sent: Vec<Vec<u8>>,
}

/// Runs one request against the fake transport, as the application's loop does.
fn run_request(
    inst: &LuaInstance,
    t: &mut FakeTransport,
    request: ToLuaMessage,
    callback: &mut dyn FnMut(LuaTable) -> LuaTable,
) -> Result<LuaTable, LuaError> {
    let mut sender = LuaSender::new();
    sender.encode(request)?;
    t.sent.push(sender.take());
    let mut receiver = LuaReceiver::new();
    receiver.push(&t.script);
    loop {
        let m = match receiver.decode() {
            Some(m) => m?,
            None => panic!("the script ended before the request was answered"),
        };
        match inst.on_message(m) {
            Step::Done(values) => return Ok(values),
            Step::Failed { value, trace } => return Err(LuaError::Runtime { value, trace }),
            Step::Dispatch { args, .. } => {
                let result = callback(args);
                sender.encode(reply(result))?;
                t.sent.push(sender.take());
            }
            Step::NoSuchFunction(id) => return Err(LuaError::NoSuchFunction(id)),
        }
    }
}

#[test]
fn reentrant_call_invokes_callback_once() {
    let mut inst = LuaInstance::weld(vec![]);
    inst.insert_callback(s("lib-fn-1"));
    let mut script = call_message("lib-fn-1", "ping");
    script.extend(return_message("final"));
    let mut t = FakeTransport { script, sent: vec![] };
    let mut invoked = 0;
    let mut seen = String::new();
    let mut callback = |args: LuaTable| {
        invoked += 1;
        seen = text_of(args.get_string(&LuaKey::index(1)).unwrap());
        let mut r = LuaTable::new();
        r.insert(LuaKey::index(1), LuaValue::String(s("pong")));
        r
    };
    let result = run_request(&inst, &mut t, ToLuaMessage::Call { id: LuaInteger::new(7), args: LuaTable::new() }, &mut callback)
        .unwrap();
    assert_eq!(invoked, 1);
    assert_eq!(seen, "ping");
    assert_eq!(t.sent.len(), 2);
    let reply_payload = String::from_utf8(t.sent[1][16..].to_vec()).unwrap();
    assert!(reply_payload.contains(r#"s:2:"op";s:6:"return";"#));
    assert!(reply_payload.contains(r#"s:4:"pong";"#));
    assert_eq!(text_of(result.get_string(&LuaKey::index(1)).unwrap()), "final");
}

#[test]
fn unregistered_call_sends_no_reply() {
    let inst = LuaInstance::weld(vec![]);
    let mut script = call_message("lib-fn-1", "ping");
    script.extend(return_message("final"));
    let mut t = FakeTransport { script, sent: vec![] };
    let mut invoked = 0;
    let mut callback = |_args: LuaTable| {
        invoked += 1;
        LuaTable::new()
    };
    let err = run_request(&inst, &mut t, ToLuaMessage::GetStatus, &mut callback).unwrap_err();
    match err {
        LuaError::NoSuchFunction(id) => assert_eq!(text_of(&id), "lib-fn-1"),
        _ => panic!("expected NoSuchFunction"),
    }
    assert_eq!(invoked, 0);
    assert_eq!(t.sent.len(), 1);
}

#[test]
fn error_reply_fails_request() {
    let inst = LuaInstance::weld(vec![]);
    let mut t = LuaTable::new();
    t.insert(LuaKey::name("op"), LuaValue::String(s("error")));
    t.insert(LuaKey::name("value"), LuaValue::String(s("boom")));
    let mut tr = FakeTransport { script: inbound(t), sent: vec![] };
    let mut callback = |a: LuaTable| a;
    match run_request(&inst, &mut tr, ToLuaMessage::GetStatus, &mut callback) {
        Err(LuaError::Runtime { value: LuaValue::String(v), trace }) => {
            assert_eq!(text_of(&v), "boom");
            assert!(trace.is_none());
        }
        _ => panic!("expected a runtime error"),
    }
}

#[test]
fn register_library_aliases() {
    let mut inst = LuaInstance::weld(vec!["lua".to_string()]);
    let msg = inst.register_library(&s("mw_interface"), 2, &vec![s("getStatus")]);
    assert!(inst.is_registered(&s("mw_interface-getStatus-2")));
    assert!(!inst.is_registered(&s("mw_interface-getStatus-1")));
    match msg {
        ToLuaMessage::RegisterLibrary { name, functions } => {
            assert_eq!(text_of(&name), "mw_interface");
            assert_eq!(functions.len(), 1);
            assert_eq!(
                text_of(functions.get_string(&LuaKey::name("getStatus")).unwrap()),
                "mw_interface-getStatus-2"
            );
        }
        _ => panic!("expected a RegisterLibrary message"),
    }
    assert_eq!(text_of(&alias_of(&s("lib"), &s("fn"), 10)), "lib-fn-10");
}

#[test]
fn frame_header_exact() {
    assert_eq!(frame(b"abc"), b"0000000300000005abc".to_vec());
    let payload = vec![b'x'; 0x1234];
    let framed = frame(&payload);
    assert_eq!(&framed[..16], b"0000123400002467");
    assert_eq!(read_header(b"0000000300000005"), Ok(3));
    assert_eq!(read_header(b"0000000A00000013"), Ok(10));
    assert_eq!(read_header(b"0000000300000006"), Err(FrameError::Checksum));
    assert_eq!(read_header(b"0000000000000000"), Err(FrameError::Checksum));
    assert_eq!(read_header(b"00000003zz000005"), Err(FrameError::BadHeader));
    assert_eq!(read_header(b"000000030000005"), Err(FrameError::BadHeader));
}

#[test]
fn encode_get_status_message() {
    let b = encode_message(ToLuaMessage::GetStatus).ok().unwrap();
    let body = br#"a:1:{s:2:"op";s:9:"getStatus";}"#;
    let mut expected = format!("{:08x}{:08x}", body.len(), body.len() * 2 - 1).into_bytes();
    expected.extend_from_slice(body);
    assert_eq!(b, expected);
}

#[test]
fn receiver_waits_for_whole_frame() {
    let bytes = return_message("r");
    let mut rx = LuaReceiver::new();
    assert_eq!(rx.wanted().ok(), Some(16));
    rx.push(&bytes[..10]);
    assert!(rx.decode().is_none());
    rx.push(&bytes[10..20]);
    assert_eq!(rx.wanted().ok(), Some(bytes.len() - 20));
    assert!(rx.decode().is_none());
    rx.push(&bytes[20..]);
    match rx.decode() {
        Some(Ok(FromLuaMessage::Return { values })) => {
            assert_eq!(text_of(values.get_string(&LuaKey::index(1)).unwrap()), "r")
        }
        _ => panic!("expected a return message"),
    }
    let mut rx = LuaReceiver::new();
    rx.push(b"0000000300000009abc");
    assert!(matches!(rx.decode(), Some(Err(LuaError::Protocol(FrameError::Checksum)))));
}

#[test]
fn receiver_undoubles_backslashes() {
    let mut rx = LuaReceiver::new();
    let body = br#"a:3:{s:2:"op";s:6:"return";s:7:"nvalues";i:1;s:6:"values";a:1:{i:1;s:3:"a\\\\";}}"#;
    rx.push(&frame(body));
    match rx.decode() {
        Some(Ok(FromLuaMessage::Return { values })) => {
            assert_eq!(text_of(values.get_string(&LuaKey::index(1)).unwrap()), "a\\")
        }
        _ => panic!("expected a return message"),
    }
}

#[test]
fn undouble_exact() {
    assert_eq!(undouble(b"a\\\\b\\c"), b"a\\b\\c".to_vec());
    assert_eq!(undouble(b"\\\\\\"), b"\\\\".to_vec());
}

#[test]
fn escape_chunk_exact() {
    assert_eq!(escape_chunk(b"a\\b\n\r\"c"), b"a\\\\b\\n\\r\\\"c".to_vec());
}

#[test]
fn results_read() {
    let mut inner = LuaTable::new();
    inner.insert(LuaKey::name("pid"), LuaValue::Integer(LuaInteger::new(42)));
    inner.insert(LuaKey::name("time"), LuaValue::Integer(LuaInteger::new(7)));
    inner.insert(LuaKey::name("vsize"), LuaValue::Integer(LuaInteger::new(4096)));
    let mut r = LuaTable::new();
    r.insert(LuaKey::index(1), LuaValue::Table(inner));
    let st = status_of(&r).unwrap();
    assert_eq!((st.pid, st.time, st.vsize), (42, 7, 4096));
    assert!(status_of(&LuaTable::new()).is_none());

    let mut r = LuaTable::new();
    r.insert(LuaKey::index(1), LuaValue::Integer(LuaInteger::new(5)));
    assert_eq!(chunk_of(&r).unwrap().id, 5);

    let mut entry = LuaTable::new();
    entry.insert(LuaKey::name("id"), LuaValue::Integer(LuaInteger::new(9)));
    let mut map = LuaTable::new();
    map.insert(LuaKey::name("main"), LuaValue::Table(entry));
    let mut r = LuaTable::new();
    r.insert(LuaKey::index(1), LuaValue::Table(map));
    let f = functions_of(&r).unwrap();
    assert_eq!(f.result.len(), 1);
    assert_eq!(text_of(&f.result[0].0), "main");
    assert_eq!(f.result[0].1, 9);
    assert_eq!(functions_of(&LuaTable::new()).unwrap().result.len(), 0);
}

#[test]
fn cleanup_chunks_table() {
    match cleanup_chunks(&vec![3, 5]) {
        ToLuaMessage::CleanupChunks { ids } => {
            assert_eq!(ids.len(), 2);
            assert!(ids.get_bool(&LuaKey::index(3)).unwrap().to_raw());
            assert!(ids.get_bool(&LuaKey::index(5)).unwrap().to_raw());
        }
        _ => panic!("expected a CleanupChunks message"),
    }
}

#[test]
fn count_mismatch_refused() {
    let mut values = LuaTable::new();
    values.insert(LuaKey::index(1), LuaValue::String(s("x")));
    let mut t = LuaTable::new();
    t.insert(LuaKey::name("op"), LuaValue::String(s("return")));
    t.insert(LuaKey::name("nvalues"), LuaValue::Integer(LuaInteger::new(2)));
    t.insert(LuaKey::name("values"), LuaValue::Table(values));
    let mut rx = LuaReceiver::new();
    rx.push(&inbound(t));
    assert!(matches!(rx.decode(), Some(Err(LuaError::Message(MessageError::CountMismatch)))));
}

#[test]
fn refused_header_keeps_buffer() {
    let mut rx = LuaReceiver::new();
    rx.push(b"0000000300000009abc");
    assert!(matches!(rx.decode(), Some(Err(LuaError::Protocol(FrameError::Checksum)))));
    assert!(matches!(rx.decode(), Some(Err(LuaError::Protocol(FrameError::Checksum)))));
}
