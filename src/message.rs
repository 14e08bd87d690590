//! The messages of the protocol: tables whose `op` entry names their shape.
use vstd::prelude::*;
use vstd::string::StringSliceAdditionalSpecFns;
use crate::value::{
    Key,
    Val,
    LuaString,
    LuaInteger,
    LuaKey,
    LuaValue,
    LuaTable,
    entries_of,
    lookup,
    table_insert,
    lemma_remove_other,
    lemma_table_view,
};

verus! {

/// The key with the bytes of `s`.
pub open spec fn name_key(s: &str) -> Key {
    Key::Str(s.spec_bytes())
}

/// A string value with the bytes of `s`.
pub open spec fn name_val(s: &str) -> Val {
    Val::Str(s.spec_bytes())
}

/// An operation sent to the interpreter, or a reply to one of its calls.
#[derive(Debug)]
pub enum ToLuaMessage {
    LoadString { text: LuaString, name: LuaString },
    Call { id: LuaInteger, args: LuaTable },
    RegisterLibrary { name: LuaString, functions: LuaTable },
    GetStatus,
    CleanupChunks { ids: LuaTable },
    Quit,
    Testquit,
    Return { values: LuaTable },
    Failure { value: LuaString },
}

/// A table with the given entries set in order.
pub open spec fn entries1(k0: Key, v0: Val) -> Seq<(Key, Val)> {
    table_insert(Seq::empty(), k0, v0)
}

pub open spec fn entries2(k0: Key, v0: Val, k1: Key, v1: Val) -> Seq<(Key, Val)> {
    table_insert(entries1(k0, v0), k1, v1)
}

pub open spec fn entries3(k0: Key, v0: Val, k1: Key, v1: Val, k2: Key, v2: Val) -> Seq<(Key, Val)> {
    table_insert(entries2(k0, v0, k1, v1), k2, v2)
}

pub open spec fn entries4(k0: Key, v0: Val, k1: Key, v1: Val, k2: Key, v2: Val, k3: Key, v3: Val) -> Seq<
    (Key, Val),
> {
    table_insert(entries3(k0, v0, k1, v1, k2, v2), k3, v3)
}

/// The table that carries an outbound message.
pub open spec fn message_model(m: ToLuaMessage) -> Val {
    Val::Table(
        None,
        match m {
            ToLuaMessage::LoadString { text, name } => entries3(
                name_key("op"),
                name_val("loadString"),
                name_key("text"),
                Val::Str(text@),
                name_key("chunkName"),
                Val::Str(name@),
            ),
            ToLuaMessage::Call { id, args } => entries4(
                name_key("op"),
                name_val("call"),
                name_key("id"),
                Val::Int(id@),
                name_key("nargs"),
                Val::Int(entries_of(args@).len() as int),
                name_key("args"),
                args@,
            ),
            ToLuaMessage::RegisterLibrary { name, functions } => entries3(
                name_key("op"),
                name_val("registerLibrary"),
                name_key("name"),
                Val::Str(name@),
                name_key("functions"),
                functions@,
            ),
            ToLuaMessage::GetStatus => entries1(name_key("op"), name_val("getStatus")),
            ToLuaMessage::CleanupChunks { ids } => entries2(
                name_key("op"),
                name_val("cleanupChunks"),
                name_key("ids"),
                ids@,
            ),
            ToLuaMessage::Quit => entries1(name_key("op"), name_val("quit")),
            ToLuaMessage::Testquit => entries1(name_key("op"), name_val("testquit")),
            ToLuaMessage::Return { values } => entries3(
                name_key("op"),
                name_val("return"),
                name_key("nvalues"),
                Val::Int(entries_of(values@).len() as int),
                name_key("values"),
                values@,
            ),
            ToLuaMessage::Failure { value } => entries2(
                name_key("op"),
                name_val("error"),
                name_key("value"),
                Val::Str(value@),
            ),
        },
    )
}

fn text(s: &str) -> (r: LuaValue)
    ensures
        r@ == Val::Str(s.spec_bytes()),
{
    LuaValue::String(LuaString::new(s))
}

/// The largest number of entries that a count on the wire may hold.
pub const MAX_COUNT: usize = 0x7fff_ffff;

/// The table that carries `m`, where each table in it has a count that fits in 31 bits.
pub fn to_table(m: ToLuaMessage) -> (r: LuaTable)
    requires
        m matches ToLuaMessage::Call { args, .. } ==> entries_of(args@).len() <= MAX_COUNT,
        m matches ToLuaMessage::Return { values } ==> entries_of(values@).len() <= MAX_COUNT,
    ensures
        r@ == message_model(m),
{
    let mut t = LuaTable::new();
    match m {
        ToLuaMessage::LoadString { text: body, name } => {
            t.insert(LuaKey::name("op"), text("loadString"));
            t.insert(LuaKey::name("text"), LuaValue::String(body));
            t.insert(LuaKey::name("chunkName"), LuaValue::String(name));
        },
        ToLuaMessage::Call { id, args } => {
            let n = args.len();
            t.insert(LuaKey::name("op"), text("call"));
            t.insert(LuaKey::name("id"), LuaValue::Integer(id));
            t.insert(LuaKey::name("nargs"), LuaValue::Integer(LuaInteger::new(n as i32)));
            t.insert(LuaKey::name("args"), LuaValue::Table(args));
        },
        ToLuaMessage::RegisterLibrary { name, functions } => {
            t.insert(LuaKey::name("op"), text("registerLibrary"));
            t.insert(LuaKey::name("name"), LuaValue::String(name));
            t.insert(LuaKey::name("functions"), LuaValue::Table(functions));
        },
        ToLuaMessage::GetStatus => {
            t.insert(LuaKey::name("op"), text("getStatus"));
        },
        ToLuaMessage::CleanupChunks { ids } => {
            t.insert(LuaKey::name("op"), text("cleanupChunks"));
            t.insert(LuaKey::name("ids"), LuaValue::Table(ids));
        },
        ToLuaMessage::Quit => {
            t.insert(LuaKey::name("op"), text("quit"));
        },
        ToLuaMessage::Testquit => {
            t.insert(LuaKey::name("op"), text("testquit"));
        },
        ToLuaMessage::Return { values } => {
            let n = values.len();
            t.insert(LuaKey::name("op"), text("return"));
            t.insert(LuaKey::name("nvalues"), LuaValue::Integer(LuaInteger::new(n as i32)));
            t.insert(LuaKey::name("values"), LuaValue::Table(values));
        },
        ToLuaMessage::Failure { value } => {
            t.insert(LuaKey::name("op"), text("error"));
            t.insert(LuaKey::name("value"), LuaValue::String(value));
        },
    }
    t
}

/// A message received from the interpreter.
#[derive(Debug)]
pub enum FromLuaMessage {
    /// The final result of the pending request.
    Return { values: LuaTable },
    /// The pending request failed in the interpreter.
    Error { value: LuaValue, trace: Option<LuaTable> },
    /// The interpreter calls a host function.
    Call { id: LuaString, args: LuaTable },
}

/// Why a received table is no message.
#[derive(PartialEq, Eq, Structural, Clone, Copy, Debug)]
pub enum MessageError {
    /// The table has no string under `op`.
    NoOp,
    /// The `op` is none of `return`, `error`, `call`.
    UnknownOp,
    /// An entry that the `op` asks for is missing or of another kind.
    MissingField,
    /// A count disagrees with the number of entries of the table it counts.
    CountMismatch,
}

/// The value under the string key `s`.
pub open spec fn field(t: Val, s: &str) -> Option<Val> {
    lookup(entries_of(t), name_key(s))
}

pub open spec fn is_table(o: Option<Val>) -> bool {
    o matches Some(Val::Table(_, _))
}

pub open spec fn is_str(o: Option<Val>) -> bool {
    o matches Some(Val::Str(_))
}

/// Whether `t` is a return, an error or a call message, with the entries that it asks for.
pub open spec fn valid_inbound(t: Val) -> bool {
    ||| field(t, "op") == Some(name_val("return")) && counted(t, "nvalues", "values")
    ||| field(t, "op") == Some(name_val("error")) && field(t, "value") is Some
    ||| field(t, "op") == Some(name_val("call")) && is_str(field(t, "id")) && counted(t, "nargs", "args")
}

/// Under `items` stands a table, and under `count` the number of its entries.
pub open spec fn counted(t: Val, count: &str, items: &str) -> bool {
    field(t, items) matches Some(Val::Table(_, es)) && field(t, count) == Some(
        Val::Int(es.len() as int),
    )
}

/// Reads a received table as a message.
pub fn from_table(t: LuaTable) -> (r: Result<FromLuaMessage, MessageError>)
    ensures
        r is Ok <==> valid_inbound(t@),
        r matches Ok(FromLuaMessage::Return { values }) ==> field(t@, "op") == Some(name_val("return"))
            && field(t@, "values") == Some(values@),
        r matches Ok(FromLuaMessage::Error { value, trace }) ==> field(t@, "op") == Some(
            name_val("error"),
        ) && field(t@, "value") == Some(value@) && (trace matches Some(tr) ==> field(t@, "trace")
            == Some(tr@)) && (trace is None <==> !is_table(field(t@, "trace"))),
        r matches Ok(FromLuaMessage::Call { id, args }) ==> field(t@, "op") == Some(name_val("call"))
            && field(t@, "id") == Some(Val::Str(id@)) && field(t@, "args") == Some(args@),
{
    let mut t = t;
    let ghost t0 = t@;
    proof {
        reveal_strlit("return");
        reveal_strlit("error");
        reveal_strlit("call");
        broadcast use vstd::string::is_ascii_spec_bytes;
        assert(vstd::string::is_ascii("return"));
        assert(vstd::string::is_ascii("error"));
        assert(vstd::string::is_ascii("call"));
        assert("return".spec_bytes() != "error".spec_bytes());
        assert("return".spec_bytes() != "call".spec_bytes());
        assert("error".spec_bytes() != "call".spec_bytes());
    }
    let op = match t.get_string(&LuaKey::name("op")) {
        Some(s) => s.copy(),
        None => {
            return Err(MessageError::NoOp);
        },
    };
    if op.same(&LuaString::new("return")) {
        let n = match t.get_integer(&LuaKey::name("nvalues")) {
            Some(i) => i.to_raw(),
            None => {
                return Err(MessageError::MissingField);
            },
        };
        match t.remove(&LuaKey::name("values")) {
            Some(LuaValue::Table(values)) => {
                proof {
                    lemma_table_view(values);
                }
                if n < 0 || values.len() != n as usize {
                    return Err(MessageError::CountMismatch);
                }
                Ok(FromLuaMessage::Return { values })
            },
            _ => {
                Err(MessageError::MissingField)
            },
        }
    } else if op.same(&LuaString::new("error")) {
        let trace = match t.get_table(&LuaKey::name("trace")) {
            Some(_) => match t.remove(&LuaKey::name("trace")) {
                Some(LuaValue::Table(tr)) => Some(tr),
                _ => None,
            },
            None => None,
        };
        assert(field(t@, "value") == field(t0, "value")) by {
            reveal_strlit("trace");
            reveal_strlit("value");
            assert(vstd::string::is_ascii("trace"));
            assert(vstd::string::is_ascii("value"));
            assert("trace".spec_bytes()[0] != "value".spec_bytes()[0]);
            if t@ != t0 {
                lemma_remove_other(entries_of(t0), name_key("trace"), name_key("value"));
            }
        }
        match t.remove(&LuaKey::name("value")) {
            Some(value) => {
                Ok(FromLuaMessage::Error { value, trace })
            },
            None => {
                Err(MessageError::MissingField)
            },
        }
    } else if op.same(&LuaString::new("call")) {
        let id = match t.get_string(&LuaKey::name("id")) {
            Some(s) => s.copy(),
            None => {
                return Err(MessageError::MissingField);
            },
        };
        let n = match t.get_integer(&LuaKey::name("nargs")) {
            Some(i) => i.to_raw(),
            None => {
                return Err(MessageError::MissingField);
            },
        };
        match t.remove(&LuaKey::name("args")) {
            Some(LuaValue::Table(args)) => {
                proof {
                    lemma_table_view(args);
                }
                if n < 0 || args.len() != n as usize {
                    return Err(MessageError::CountMismatch);
                }
                Ok(FromLuaMessage::Call { id, args })
            },
            _ => {
                Err(MessageError::MissingField)
            },
        }
    } else {
        Err(MessageError::UnknownOp)
    }
}

} // verus!
