//! The session with the interpreter, as decisions on plain values: which aliases are
//! registered, what each received message leads to, and the bytes of each request.
use vstd::prelude::*;
use vstd::string::StringSliceAdditionalSpecFns;
use crate::number::{dec_nat, write_nat};
use crate::value::{
    Key,
    Val,
    LuaString,
    LuaBool,
    LuaKey,
    LuaValue,
    LuaTable,
    entries_of,
    lookup,
    table_insert,
    lemma_table_view,
};
use crate::codec::{DecodeError, enc_value, encode, decode};
use crate::frame::{FrameError, MAX_PAYLOAD, header, undoubled, undouble, frame};
use crate::message::{
    ToLuaMessage,
    FromLuaMessage,
    MessageError,
    MAX_COUNT,
    message_model,
    field,
    valid_inbound,
    is_table,
    to_table,
    from_table,
};

verus! {

/// The state of a session: the include directories and the aliases of the host functions
/// that the interpreter may call.
#[derive(Debug)]
pub struct LuaInstance {
    includes: Vec<String>,
    library: Vec<LuaString>,
}

impl View for LuaInstance {
    type V = Set<Seq<u8>>;

    /// The registered aliases.
    closed spec fn view(&self) -> Set<Seq<u8>> {
        Set::new(|a: Seq<u8>| exists|i: int| 0 <= i < self.library@.len() && #[trigger] self.library@[i]@ == a)
    }
}

/// The alias under which a library function is exposed: `{name}-{op}-{version}`.
pub open spec fn alias(name: Seq<u8>, op: Seq<u8>, version: nat) -> Seq<u8> {
    name + seq![45u8] + op + seq![45u8] + dec_nat(version)
}

/// The table that maps each of the first `n` operation names to its alias.
pub open spec fn alias_entries(name: Seq<u8>, ops: Seq<LuaString>, version: nat, n: int) -> Seq<
    (Key, Val),
>
    decreases n,
{
    if n <= 0 || n > ops.len() {
        Seq::empty()
    } else {
        table_insert(
            alias_entries(name, ops, version, n - 1),
            Key::Str(ops[n - 1]@),
            Val::Str(alias(name, ops[n - 1]@, version)),
        )
    }
}

/// The alias of `op` in version `version` of library `name`.
pub fn alias_of(name: &LuaString, op: &LuaString, version: u32) -> (r: LuaString)
    ensures
        r@ == alias(name@, op@, version as nat),
{
    let mut b: Vec<u8> = Vec::new();
    b.extend_from_slice(name.as_raw());
    b.push(45u8);
    b.extend_from_slice(op.as_raw());
    b.push(45u8);
    write_nat(&mut b, version as u64);
    proof {
        assert(b@ =~= alias(name@, op@, version as nat));
    }
    LuaString::from_bytes(b)
}

/// What a received message leads to.
#[derive(Debug)]
pub enum Step {
    /// The request is answered with this table.
    Done(LuaTable),
    /// The request failed in the interpreter.
    Failed { value: LuaValue, trace: Option<LuaTable> },
    /// The host function under this alias is to be called with these arguments, and its
    /// result sent back as a return message.
    Dispatch { id: LuaString, args: LuaTable },
    /// The interpreter called an alias that is not registered; nothing is sent back.
    NoSuchFunction(LuaString),
}

/// The errors of a session.
#[derive(Debug)]
pub enum LuaError {
    /// A frame header is refused: the session is out of step.
    Protocol(FrameError),
    /// A payload is no encoded value.
    Decode(DecodeError),
    /// A payload holds a value that is no table.
    NotATable,
    /// A received table is no message.
    Message(MessageError),
    /// A message is too large to frame.
    TooLarge,
    /// The interpreter reported an error.
    Runtime { value: LuaValue, trace: Option<LuaTable> },
    /// The interpreter called an alias that is not registered.
    NoSuchFunction(LuaString),
}

/// Whether a received message corresponds to the table `w`.
pub open spec fn inbound_matches(m: FromLuaMessage, w: Val) -> bool {
    match m {
        FromLuaMessage::Return { values } => field(w, "op") == Some(Val::Str("return".spec_bytes()))
            && field(w, "values") == Some(values@),
        FromLuaMessage::Error { value, trace } => field(w, "op") == Some(Val::Str("error".spec_bytes()))
            && field(w, "value") == Some(value@) && (trace matches Some(tr) ==> field(w, "trace")
            == Some(tr@)) && (trace is None <==> !is_table(field(w, "trace"))),
        FromLuaMessage::Call { id, args } => field(w, "op") == Some(Val::Str("call".spec_bytes()))
            && field(w, "id") == Some(Val::Str(id@)) && field(w, "args") == Some(args@),
    }
}

/// Whether an outbound message fits on the wire: each count in 31 bits, the payload in
/// the frame's length field.
pub open spec fn fits(m: ToLuaMessage) -> bool {
    &&& m matches ToLuaMessage::Call { args, .. } ==> entries_of(args@).len() <= MAX_COUNT
    &&& m matches ToLuaMessage::Return { values } ==> entries_of(values@).len() <= MAX_COUNT
    &&& enc_value(message_model(m)).len() <= MAX_PAYLOAD
}

/// The bytes that carry `m`: its frame header and its wire text.
pub fn encode_message(m: ToLuaMessage) -> (r: Result<Vec<u8>, LuaError>)
    ensures
        r matches Ok(b) ==> b@ == header(enc_value(message_model(m)).len() as nat) + enc_value(
            message_model(m),
        ),
        r is Ok <==> fits(m),
        r is Err ==> r matches Err(LuaError::TooLarge),
{
    let small = match &m {
        ToLuaMessage::Call { args, .. } => args.len() <= MAX_COUNT,
        ToLuaMessage::Return { values } => values.len() <= MAX_COUNT,
        _ => true,
    };
    if !small {
        return Err(LuaError::TooLarge);
    }
    let t = to_table(m);
    let payload = encode(&LuaValue::Table(t));
    if payload.len() > MAX_PAYLOAD {
        return Err(LuaError::TooLarge);
    }
    proof {
        lemma_table_view(t);
    }
    Ok(frame(payload.as_slice()))
}

/// The message in a received payload: backslash doubling undone, then decoded.
pub fn decode_message(payload: &[u8]) -> (r: Result<FromLuaMessage, LuaError>)
    ensures
        r matches Ok(m) ==> exists|w: Val|
            w.wf() && undoubled(payload@) == enc_value(w) && #[trigger] inbound_matches(m, w),
        forall|w: Val|
            w.wf() && undoubled(payload@) == #[trigger] enc_value(w) ==> (r is Ok <==> (w is Table
                && valid_inbound(w))) && (r matches Ok(m) ==> inbound_matches(m, w)),
        (forall|w: Val| !(w.wf() && undoubled(payload@) == #[trigger] enc_value(w))) ==> r matches Err(
            LuaError::Decode(_),
        ),
        !(r matches Err(LuaError::Protocol(_))),
{
    let text = undouble(payload);
    match decode(text.as_slice()) {
        Ok(LuaValue::Table(t)) => {
            let ghost w = t@;
            proof {
                lemma_table_view(t);
            }
            match from_table(t) {
                Ok(m) => {
                    proof {
                        assert(inbound_matches(m, w));
                    }
                    Ok(m)
                },
                Err(e) => Err(LuaError::Message(e)),
            }
        },
        Ok(_) => Err(LuaError::NotATable),
        Err(e) => Err(LuaError::Decode(e)),
    }
}

/// The reply that carries a host function's result back to the interpreter.
pub fn reply(values: LuaTable) -> (r: ToLuaMessage)
    ensures
        r matches ToLuaMessage::Return { values: v } && v@ == values@,
{
    ToLuaMessage::Return { values }
}

impl LuaInstance {
    /// The include directories, in order of precedence.
    pub closed spec fn include_dirs(&self) -> Seq<String> {
        self.includes@
    }

    /// A session with no registered alias.
    pub fn weld(includes: Vec<String>) -> (r: LuaInstance)
        ensures
            r@ == Set::<Seq<u8>>::empty(),
            r.include_dirs() == includes@,
    {
        let r = LuaInstance { includes, library: Vec::new() };
        assert(r@ =~= Set::<Seq<u8>>::empty());
        r
    }

    pub fn includes(&self) -> (r: &Vec<String>)
        ensures
            r@ == self.include_dirs(),
    {
        &self.includes
    }

    /// Whether `id` is registered.
    pub fn is_registered(&self, id: &LuaString) -> (r: bool)
        ensures
            r == self@.contains(id@),
    {
        let mut i: usize = 0;
        while i < self.library.len()
            invariant
                i <= self.library@.len(),
                forall|j: int| 0 <= j < i ==> (#[trigger] self.library@[j])@ != id@,
            decreases self.library@.len() - i,
        {
            if self.library[i].same(id) {
                return true;
            }
            i = i + 1;
        }
        false
    }

    /// Registers a host function under `alias`.
    pub fn insert_callback(&mut self, alias: LuaString)
        ensures
            final(self)@ == old(self)@.insert(alias@),
            final(self).include_dirs() == old(self).include_dirs(),
    {
        let ghost a = alias@;
        self.library.push(alias);
        assert(final(self)@ =~= old(self)@.insert(a)) by {
            assert(self.library@[self.library@.len() - 1]@ == a);
            assert forall|x: Seq<u8>| old(self)@.contains(x) implies final(self)@.contains(x) by {
                let i = choose|i: int| 0 <= i < old(self).library@.len() && #[trigger] old(self).library@[i]@ == x;
                assert(self.library@[i] == old(self).library@[i]);
            }
        }
    }

    /// Registers each operation of version `version` of library `name` under its alias, and
    /// builds the message that asks the interpreter to install the library: its table maps
    /// each operation name to its alias.
    pub fn register_library(&mut self, name: &LuaString, version: u32, ops: &Vec<LuaString>) -> (r: ToLuaMessage)
        ensures
            r matches ToLuaMessage::RegisterLibrary { name: n, functions } && n@ == name@
                && functions@ == Val::Table(None, alias_entries(name@, ops@, version as nat, ops@.len() as int)),
            forall|a: Seq<u8>| #[trigger] final(self)@.contains(a) <==> (old(self)@.contains(a) || exists|i: int|
                0 <= i < ops@.len() && a == alias(name@, ops@[i]@, version as nat)),
            final(self).include_dirs() == old(self).include_dirs(),
    {
        let mut functions = LuaTable::new();
        let mut i: usize = 0;
        while i < ops.len()
            invariant
                i <= ops@.len(),
                functions@ == Val::Table(None, alias_entries(name@, ops@, version as nat, i as int)),
                self.include_dirs() == old(self).include_dirs(),
                forall|a: Seq<u8>| #[trigger] self@.contains(a) <==> (old(self)@.contains(a) || exists|j: int|
                    0 <= j < i && a == alias(name@, ops@[j]@, version as nat)),
            decreases ops@.len() - i,
        {
            let op = &ops[i];
            let al = alias_of(name, op, version);
            let ghost before = self@;
            self.insert_callback(al.copy());
            functions.insert(LuaKey::String(op.copy()), LuaValue::String(al));
            proof {
                assert forall|a: Seq<u8>| #[trigger] self@.contains(a) <==> (old(self)@.contains(a) || exists|j: int|
                    0 <= j < i + 1 && a == alias(name@, ops@[j]@, version as nat)) by {
                    if a == alias(name@, ops@[i as int]@, version as nat) {
                        assert(self@.contains(a));
                    }
                    if exists|j: int| 0 <= j < i + 1 && a == alias(name@, ops@[j]@, version as nat) {
                        let j = choose|j: int| 0 <= j < i + 1 && a == alias(name@, ops@[j]@, version as nat);
                        if j < i {
                            assert(before.contains(a));
                        }
                    }
                }
            }
            i = i + 1;
        }
        ToLuaMessage::RegisterLibrary { name: name.copy(), functions }
    }

    /// What a received message leads to.
    pub fn on_message(&self, m: FromLuaMessage) -> (r: Step)
        ensures
            m matches FromLuaMessage::Return { values } ==> (r matches Step::Done(t) && t@ == values@),
            m matches FromLuaMessage::Error { value, trace } ==> (r matches Step::Failed { value: v, trace: tr }
                && v@ == value@ && tr == trace),
            m matches FromLuaMessage::Call { id, args } ==> (self@.contains(id@) ==> (r matches Step::Dispatch {
                id: i,
                args: a,
            } && i@ == id@ && a@ == args@)),
            m matches FromLuaMessage::Call { id, args } ==> (!self@.contains(id@) ==> (r matches Step::NoSuchFunction(
                i,
            ) && i@ == id@)),
    {
        match m {
            FromLuaMessage::Return { values } => Step::Done(values),
            FromLuaMessage::Error { value, trace } => Step::Failed { value, trace },
            FromLuaMessage::Call { id, args } => {
                if self.is_registered(&id) {
                    Step::Dispatch { id, args }
                } else {
                    Step::NoSuchFunction(id)
                }
            },
        }
    }
}

/// The status of the interpreter process.
#[derive(Debug)]
pub struct RGetStatus {
    pub pid: u32,
    /// User and system time, in clock ticks.
    pub time: u32,
    /// Virtual memory size, in bytes.
    pub vsize: u32,
}

/// The handle of a loaded chunk.
#[derive(Debug)]
pub struct RLoadString {
    pub id: i32,
}

/// The chunk handles that a call returned, by function name.
#[derive(Debug)]
pub struct RCallLuaFunction {
    pub result: Vec<(LuaString, i32)>,
}

/// The acknowledgement of a library registration.
#[derive(Debug)]
pub struct RRegisterLibrary {}

/// The acknowledgement of a chunk cleanup.
#[derive(Debug)]
pub struct RCleanupChunks {}

/// The first value of a result table.
pub open spec fn first_value(v: Val) -> Option<Val> {
    lookup(entries_of(v), Key::Int(1))
}

/// The process id, time and memory size in the first value of a status result.
pub open spec fn status_model(v: Val) -> Option<(int, int, int)> {
    match first_value(v) {
        Some(inner) => match (field(inner, "pid"), field(inner, "time"), field(inner, "vsize")) {
            (Some(Val::Int(a)), Some(Val::Int(b)), Some(Val::Int(c))) => Some((a, b, c)),
            _ => None,
        },
        None => None,
    }
}

/// Reads the status of a get-status result.
pub fn status_of(result: &LuaTable) -> (r: Option<RGetStatus>)
    ensures
        r is Some <==> status_model(result@) is Some,
        r matches Some(st) ==> {
            let (a, b, c) = status_model(result@)->Some_0;
            st.pid == a as u32 && st.time == b as u32 && st.vsize == c as u32
        },
{
    let inner = match result.get_table(&LuaKey::index(1)) {
        Some(t) => t,
        None => {
            proof {
                if first_value(result@) is Some {
                    let iv = first_value(result@)->Some_0;
                    assert(entries_of(iv) == Seq::<(Key, Val)>::empty());
                }
            }
            return None;
        },
    };
    let pid = match inner.get_integer(&LuaKey::name("pid")) {
        Some(x) => x.to_raw(),
        None => {
            return None;
        },
    };
    let time = match inner.get_integer(&LuaKey::name("time")) {
        Some(x) => x.to_raw(),
        None => {
            return None;
        },
    };
    let vsize = match inner.get_integer(&LuaKey::name("vsize")) {
        Some(x) => x.to_raw(),
        None => {
            return None;
        },
    };
    Some(RGetStatus { pid: pid as u32, time: time as u32, vsize: vsize as u32 })
}

/// Reads the chunk handle of a load result: the integer that comes first.
pub fn chunk_of(result: &LuaTable) -> (r: Option<RLoadString>)
    ensures
        r matches Some(c) ==> first_value(result@) == Some(Val::Int(c.id as int)),
        r is None <==> !(first_value(result@) matches Some(Val::Int(_))),
{
    match result.get_integer(&LuaKey::index(1)) {
        Some(i) => Some(RLoadString { id: i.to_raw() }),
        None => None,
    }
}

/// The name and `id` of each of the first `n` entries, where each key is a string and each
/// value holds an integer `id`.
pub open spec fn id_entries(es: Seq<(Key, Val)>, n: int) -> Option<Seq<(Seq<u8>, int)>>
    decreases n,
{
    if n <= 0 || n > es.len() {
        Some(Seq::empty())
    } else {
        match id_entries(es, n - 1) {
            Some(prev) => match (es[n - 1].0, field(es[n - 1].1, "id")) {
                (Key::Str(name), Some(Val::Int(id))) => Some(prev.push((name, id))),
                _ => None,
            },
            None => None,
        }
    }
}

/// The names and ids in the first value of a call result; none where it holds no table.
pub open spec fn call_model(v: Val) -> Option<Seq<(Seq<u8>, int)>> {
    match first_value(v) {
        Some(Val::Table(c, es)) => id_entries(es, es.len() as int),
        _ => Some(Seq::empty()),
    }
}

pub open spec fn pairs_view(p: Seq<(LuaString, i32)>) -> Seq<(Seq<u8>, int)> {
    Seq::new(p.len(), |i: int| (p[i].0@, p[i].1 as int))
}

/// Reads the function names and chunk ids of a call result.
pub fn functions_of(result: &LuaTable) -> (r: Option<RCallLuaFunction>)
    ensures
        r is Some <==> call_model(result@) is Some,
        r matches Some(f) ==> pairs_view(f.result@) == call_model(result@)->Some_0,
{
    let inner = match result.get_table(&LuaKey::index(1)) {
        Some(t) => t,
        None => {
            let out: Vec<(LuaString, i32)> = Vec::new();
            assert(pairs_view(out@) =~= Seq::<(Seq<u8>, int)>::empty());
            return Some(RCallLuaFunction { result: out });
        },
    };
    let n = inner.len();
    let ghost es = entries_of(inner@);
    proof {
        lemma_table_view(*inner);
        assert(inner@ == Val::Table(crate::value::class_of(inner@), es));
    }
    let mut out: Vec<(LuaString, i32)> = Vec::new();
    let mut i: usize = 0;
    assert(pairs_view(out@) =~= Seq::<(Seq<u8>, int)>::empty());
    while i < n
        invariant
            i <= n == es.len(),
            es == entries_of(inner@),
            first_value(result@) == Some(inner@),
            inner@ == Val::Table(crate::value::class_of(inner@), es),
            id_entries(es, i as int) == Some(pairs_view(out@)),
        decreases n - i,
    {
        let (k, v) = inner.entry(i);
        let name = match k {
            LuaKey::String(s) => s.copy(),
            LuaKey::Integer(_) => {
                proof {
                    lemma_id_entries_none(es, i as int + 1, n as int);
                }
                return None;
            },
        };
        let id = match v {
            LuaValue::Table(t) => match t.get_integer(&LuaKey::name("id")) {
                Some(x) => x.to_raw(),
                None => {
                    proof {
                        lemma_id_entries_none(es, i as int + 1, n as int);
                    }
                    return None;
                },
            },
            _ => {
                proof {
                    assert(entries_of(v@) == Seq::<(Key, Val)>::empty());
                    lemma_id_entries_none(es, i as int + 1, n as int);
                }
                return None;
            },
        };
        let ghost before = out@;
        out.push((name, id));
        assert(pairs_view(out@) =~= pairs_view(before).push((es[i as int].0->Str_0, id as int)));
        i = i + 1;
    }
    Some(RCallLuaFunction { result: out })
}

proof fn lemma_id_entries_none(es: Seq<(Key, Val)>, k: int, n: int)
    requires
        1 <= k <= n <= es.len(),
        id_entries(es, k) is None,
    ensures
        id_entries(es, n) is None,
    decreases n - k,
{
    if k < n {
        lemma_id_entries_none(es, k + 1, n);
    }
}

/// The entries that mark each of the first `n` ids as owned.
pub open spec fn owned_entries(ids: Seq<i32>, n: int) -> Seq<(Key, Val)>
    decreases n,
{
    if n <= 0 || n > ids.len() {
        Seq::empty()
    } else {
        table_insert(owned_entries(ids, n - 1), Key::Int(ids[n - 1] as int), Val::Bool(true))
    }
}

/// The message that releases the chunks with the given ids.
pub fn cleanup_chunks(ids: &Vec<i32>) -> (r: ToLuaMessage)
    ensures
        r matches ToLuaMessage::CleanupChunks { ids: t } && t@ == Val::Table(None, owned_entries(ids@, ids@.len() as int)),
{
    let mut t = LuaTable::new();
    let mut i: usize = 0;
    while i < ids.len()
        invariant
            i <= ids@.len(),
            t@ == Val::Table(None, owned_entries(ids@, i as int)),
        decreases ids@.len() - i,
    {
        t.insert(LuaKey::index(ids[i]), LuaValue::Bool(LuaBool::new(true)));
        i = i + 1;
    }
    ToLuaMessage::CleanupChunks { ids: t }
}

/// A byte of source text as it stands in a chunk literal.
pub open spec fn chunk_byte(c: u8) -> Seq<u8> {
    if c == 92 {
        seq![92u8, 92u8]
    } else if c == 10 {
        seq![92u8, 110u8]
    } else if c == 13 {
        seq![92u8, 114u8]
    } else if c == 34 {
        seq![92u8, 34u8]
    } else {
        seq![c]
    }
}

/// Source text escaped for a chunk literal: backslash, newline, carriage return and double
/// quote each become a backslash sequence.
pub open spec fn chunk_escaped(b: Seq<u8>) -> Seq<u8>
    decreases b.len(),
{
    if b.len() == 0 {
        Seq::empty()
    } else {
        chunk_escaped(b.drop_last()) + chunk_byte(b.last())
    }
}

/// Escapes the text of a source file so that it can be loaded as a chunk.
pub fn escape_chunk(src: &[u8]) -> (r: Vec<u8>)
    ensures
        r@ == chunk_escaped(src@),
{
    let mut out: Vec<u8> = Vec::new();
    let mut i: usize = 0;
    while i < src.len()
        invariant
            i <= src@.len(),
            out@ == chunk_escaped(src@.subrange(0, i as int)),
        decreases src@.len() - i,
    {
        let c = src[i];
        if c == 92 {
            out.push(92u8);
            out.push(92u8);
        } else if c == 10 {
            out.push(92u8);
            out.push(110u8);
        } else if c == 13 {
            out.push(92u8);
            out.push(114u8);
        } else if c == 34 {
            out.push(92u8);
            out.push(34u8);
        } else {
            out.push(c);
        }
        proof {
            let p = src@.subrange(0, i + 1);
            assert(p.drop_last() =~= src@.subrange(0, i as int));
            assert(out@ =~= chunk_escaped(p));
        }
        i = i + 1;
    }
    assert(src@.subrange(0, i as int) =~= src@);
    out
}

/// `/?.lua;`, the pattern that follows each directory in the module search path.
pub open spec fn lua_pattern() -> Seq<u8> {
    seq![47u8, 63u8, 46u8, 108u8, 117u8, 97u8, 59u8]
}

/// The search path entries of the first `n` directories, in order.
pub open spec fn path_entries(dirs: Seq<Vec<u8>>, n: int) -> Seq<u8>
    decreases n,
{
    if n <= 0 || n > dirs.len() {
        Seq::empty()
    } else {
        path_entries(dirs, n - 1) + dirs[n - 1]@ + lua_pattern()
    }
}

/// The value of the module search path: `{dir}/?.lua;` for each directory, in order, before
/// what the variable held already.
pub fn search_path(dirs: &Vec<Vec<u8>>, existing: &[u8]) -> (r: Vec<u8>)
    ensures
        r@ == path_entries(dirs@, dirs@.len() as int) + existing@,
{
    let mut out: Vec<u8> = Vec::new();
    let mut i: usize = 0;
    while i < dirs.len()
        invariant
            i <= dirs@.len(),
            out@ == path_entries(dirs@, i as int),
        decreases dirs@.len() - i,
    {
        out.extend_from_slice(dirs[i].as_slice());
        let mut pattern: Vec<u8> = vec![47u8, 63u8, 46u8, 108u8, 117u8, 97u8, 59u8];
        out.append(&mut pattern);
        i = i + 1;
        assert(out@ =~= path_entries(dirs@, i as int));
    }
    out.extend_from_slice(existing);
    assert(out@ =~= path_entries(dirs@, dirs@.len() as int) + existing@);
    out
}

} // verus!
