//! The textual encoding of values, after PHP's `serialize`.
use vstd::prelude::*;
use crate::number::{
    dec_nat,
    dec_int,
    holds_at,
    digits_end_at,
    is_digit,
    lemma_dec_nat,
    scan_nat,
    write_nat,
    write_int,
};
use crate::value::{
    LuaNameType,
    table_insert,
    entries_model,
    lemma_entries_model,
    Key,
    Val,
    LuaString,
    LuaInteger,
    LuaBool,
    LuaNull,
    LuaFloat,
    LuaKey,
    LuaValue,
    LuaTable,
    float_token,
    float_literal,
    digit_run,
    keys_distinct,
    entries_wf,
    entries_of,
    class_of,
    lookup,
    lemma_entries_wf,
    lemma_key_position,
    key_position,
};

verus! {

/// Why a text is not the encoding of a value.
#[derive(PartialEq, Eq, Structural, Clone, Copy, Debug)]
pub enum DecodeError {
    /// The tag byte is not one that may stand there.
    UnexpectedPrefix,
    /// A declared length or count disagrees with the content.
    BadLength,
    /// A table key cannot become a key of the table's key type.
    BadType,
    /// A number is missing, out of range or not in canonical form.
    BadNumber,
    /// A separator or terminator is missing, or an escape is invalid.
    Malformed,
    /// A table holds the same key twice.
    DuplicateKey,
}

/// A byte that stands escaped inside a quoted string: backslash, double quote, newline,
/// carriage return and tab.
pub open spec fn needs_escape(c: u8) -> bool {
    c == 92 || c == 34 || c == 10 || c == 13 || c == 9
}

/// The letter that follows the backslash for such a byte: `\\`, `\"`, `\n`, `\r`, `\t`.
pub open spec fn escape_letter(c: u8) -> u8 {
    if c == 10 {
        110
    } else if c == 13 {
        114
    } else if c == 9 {
        116
    } else {
        c
    }
}

/// The byte that the letter `d` after a backslash stands for, where it stands for one.
pub open spec fn letter_value(d: u8) -> Option<u8> {
    if d == 92 || d == 34 {
        Some(d)
    } else if d == 110 {
        Some(10u8)
    } else if d == 114 {
        Some(13u8)
    } else if d == 116 {
        Some(9u8)
    } else {
        None
    }
}

/// A byte as it stands inside a quoted string.
pub open spec fn esc_byte(c: u8) -> Seq<u8> {
    if needs_escape(c) {
        seq![92u8, escape_letter(c)]
    } else {
        seq![c]
    }
}

pub open spec fn escape(b: Seq<u8>) -> Seq<u8>
    decreases b.len(),
{
    if b.len() == 0 {
        Seq::empty()
    } else {
        esc_byte(b[0]) + escape(b.drop_first())
    }
}

/// The bytes that a quoted text stands for, where it is the escaped form of some bytes.
pub open spec fn unescape(x: Seq<u8>) -> Option<Seq<u8>>
    decreases x.len(),
{
    if x.len() == 0 {
        Some(Seq::empty())
    } else if x[0] == 92 {
        if x.len() >= 2 && letter_value(x[1]) is Some {
            match unescape(x.subrange(2, x.len() as int)) {
                Some(t) => Some(seq![letter_value(x[1])->Some_0] + t),
                None => None,
            }
        } else {
            None
        }
    } else if needs_escape(x[0]) {
        None
    } else {
        match unescape(x.drop_first()) {
            Some(t) => Some(seq![x[0]] + t),
            None => None,
        }
    }
}

/// A length-prefixed quoted text: `6:"A to Z"`.
pub open spec fn quoted(b: Seq<u8>) -> Seq<u8> {
    dec_nat(escape(b).len()) + seq![58u8, 34u8] + escape(b) + seq![34u8]
}

pub open spec fn enc_str(b: Seq<u8>) -> Seq<u8> {
    seq![115u8, 58u8] + quoted(b) + seq![59u8]
}

pub open spec fn enc_int(i: int) -> Seq<u8> {
    seq![105u8, 58u8] + dec_int(i) + seq![59u8]
}

pub open spec fn enc_float(t: Seq<u8>) -> Seq<u8> {
    seq![100u8, 58u8] + t + seq![59u8]
}

pub open spec fn enc_bool(b: bool) -> Seq<u8> {
    seq![98u8, 58u8, if b { 49u8 } else { 48u8 }, 59u8]
}

pub open spec fn enc_null() -> Seq<u8> {
    seq![78u8, 59u8]
}

pub open spec fn enc_key(k: Key) -> Seq<u8> {
    match k {
        Key::Int(i) => enc_int(i),
        Key::Str(b) => enc_str(b),
    }
}

/// `a:` for a plain table, `O:8:"stdClass":` for one with a class name.
pub open spec fn table_head(c: Option<Seq<u8>>) -> Seq<u8> {
    match c {
        None => seq![97u8, 58u8],
        Some(n) => seq![79u8, 58u8] + quoted(n) + seq![58u8],
    }
}

/// The wire text of a value.
pub open spec fn enc_value(v: Val) -> Seq<u8>
    decreases v, 0int,
{
    match v {
        Val::Str(b) => enc_str(b),
        Val::Int(i) => enc_int(i),
        Val::Float(t) => enc_float(t),
        Val::Bool(b) => enc_bool(b),
        Val::Null => enc_null(),
        Val::Table(c, es) => table_head(c) + dec_nat(es.len()) + seq![58u8, 123u8] + enc_entries(
            es,
            es.len() as int,
        ) + seq![125u8],
    }
}

/// The wire text of the first `n` entries: each key followed by its value.
pub open spec fn enc_entries(es: Seq<(Key, Val)>, n: int) -> Seq<u8>
    decreases es, n,
{
    if n <= 0 || n > es.len() {
        Seq::empty()
    } else {
        enc_entries(es, n - 1) + enc_key(es[n - 1].0) + enc_value(es[n - 1].1)
    }
}

pub proof fn lemma_holds_split(s: Seq<u8>, pos: int, a: Seq<u8>, b: Seq<u8>)
    ensures
        holds_at(s, pos, a + b) <==> (holds_at(s, pos, a) && holds_at(s, pos + a.len(), b)),
{
    if holds_at(s, pos, a + b) {
        assert((a + b).subrange(0, a.len() as int) =~= a);
        assert((a + b).subrange(a.len() as int, (a + b).len() as int) =~= b);
        assert(s.subrange(pos, pos + a.len()) =~= (a + b).subrange(0, a.len() as int));
        assert(s.subrange(pos + a.len(), pos + a.len() + b.len()) =~= (a + b).subrange(
            a.len() as int,
            (a + b).len() as int,
        ));
    }
    if holds_at(s, pos, a) && holds_at(s, pos + a.len(), b) {
        assert(s.subrange(pos, pos + (a + b).len()) =~= s.subrange(pos, pos + a.len()) + s.subrange(
            pos + a.len(),
            pos + a.len() + b.len(),
        ));
    }
}

pub proof fn lemma_escape_concat(a: Seq<u8>, b: Seq<u8>)
    ensures
        escape(a + b) == escape(a) + escape(b),
    decreases a.len(),
{
    if a.len() == 0 {
        assert(a + b =~= b);
    } else {
        lemma_escape_concat(a.drop_first(), b);
        assert((a + b).drop_first() =~= a.drop_first() + b);
        assert((a + b)[0] == a[0]);
        assert(escape(a + b) =~= escape(a) + escape(b));
    }
}

pub proof fn lemma_unescape_escape(b: Seq<u8>)
    ensures
        unescape(escape(b)) == Some(b),
    decreases b.len(),
{
    if b.len() > 0 {
        lemma_unescape_escape(b.drop_first());
        let x = escape(b);
        let r = escape(b.drop_first());
        if needs_escape(b[0]) {
            assert(x.subrange(2, x.len() as int) =~= r);
            assert(x[1] == escape_letter(b[0]));
        } else {
            assert(x.drop_first() =~= r);
        }
        assert(seq![b[0]] + b.drop_first() =~= b);
    }
}

pub proof fn lemma_escape_unescape(x: Seq<u8>)
    requires
        unescape(x) is Some,
    ensures
        escape(unescape(x)->Some_0) == x,
    decreases x.len(),
{
    if x.len() > 0 {
        if x[0] == 92 {
            let y = x.subrange(2, x.len() as int);
            lemma_escape_unescape(y);
            let t = unescape(y)->Some_0;
            let b = seq![letter_value(x[1])->Some_0] + t;
            assert(b.drop_first() =~= t);
            assert(escape(b) =~= x);
        } else {
            let y = x.drop_first();
            lemma_escape_unescape(y);
            let t = unescape(y)->Some_0;
            let b = seq![x[0]] + t;
            assert(b.drop_first() =~= t);
            assert(escape(b) =~= x);
        }
    }
}

/// Appends the escaped form of `b`.
fn write_escaped(out: &mut Vec<u8>, b: &[u8])
    ensures
        final(out)@ == old(out)@ + escape(b@),
{
    let mut i: usize = 0;
    while i < b.len()
        invariant
            i <= b@.len(),
            out@ == old(out)@ + escape(b@.subrange(0, i as int)),
        decreases b@.len() - i,
    {
        let c = b[i];
        if c == 92 || c == 34 {
            out.push(92u8);
            out.push(c);
        } else if c == 10 {
            out.push(92u8);
            out.push(110u8);
        } else if c == 13 {
            out.push(92u8);
            out.push(114u8);
        } else if c == 9 {
            out.push(92u8);
            out.push(116u8);
        } else {
            out.push(c);
        }
        proof {
            let p = b@.subrange(0, i as int);
            lemma_escape_concat(p, seq![c]);
            assert(b@.subrange(0, i + 1) =~= p + seq![c]);
            assert(seq![c].drop_first() =~= Seq::<u8>::empty());
            assert(escape(Seq::<u8>::empty()) =~= Seq::<u8>::empty());
            assert(seq![c][0] == c);
            assert(escape(seq![c]) =~= esc_byte(c) + escape(Seq::<u8>::empty()));
            assert(escape(seq![c]) =~= esc_byte(c));
        }
        i = i + 1;
    }
    assert(b@.subrange(0, i as int) =~= b@);
}

/// `Some(p + t)` where `o` is `Some(t)`.
pub open spec fn prepend(p: Seq<u8>, o: Option<Seq<u8>>) -> Option<Seq<u8>> {
    match o {
        Some(t) => Some(p + t),
        None => None,
    }
}

/// The bytes that `s[a..b]` stands for, where it is an escaped text.
fn read_escaped(s: &[u8], a: usize, b: usize) -> (r: Option<Vec<u8>>)
    requires
        a <= b <= s@.len(),
    ensures
        r matches Some(v) ==> unescape(s@.subrange(a as int, b as int)) == Some(v@),
        r is None <==> unescape(s@.subrange(a as int, b as int)) is None,
{
    let ghost x = s@.subrange(a as int, b as int);
    let mut out: Vec<u8> = Vec::new();
    let mut i: usize = a;
    while i < b
        invariant
            a <= i <= b <= s@.len(),
            x == s@.subrange(a as int, b as int),
            unescape(x) == prepend(out@, unescape(s@.subrange(i as int, b as int))),
        decreases b - i,
    {
        let ghost y = s@.subrange(i as int, b as int);
        let c = s[i];
        if c == 92 {
            let d: u8 = if i + 1 < b {
                let l = s[i + 1];
                if l == 92 || l == 34 {
                    l
                } else if l == 110 {
                    10
                } else if l == 114 {
                    13
                } else if l == 116 {
                    9
                } else {
                    return None;
                }
            } else {
                return None;
            };
            {
                proof {
                    assert(y.subrange(2, y.len() as int) =~= s@.subrange(i + 2, b as int));
                    match unescape(s@.subrange(i + 2, b as int)) {
                        Some(t) => {
                            assert(out@.push(d) + t =~= out@ + (seq![d] + t));
                        },
                        None => {},
                    }
                }
                out.push(d);
                i = i + 2;
            }
        } else if c == 34 || c == 10 || c == 13 || c == 9 {
            return None;
        } else {
            proof {
                assert(y.drop_first() =~= s@.subrange(i + 1, b as int));
                match unescape(s@.subrange(i + 1, b as int)) {
                    Some(t) => {
                        assert(out@.push(c) + t =~= out@ + (seq![c] + t));
                    },
                    None => {},
                }
            }
            out.push(c);
            i = i + 1;
        }
    }
    proof {
        assert(s@.subrange(i as int, b as int) =~= Seq::<u8>::empty());
        assert(out@ + Seq::<u8>::empty() =~= out@);
    }
    Some(out)
}

/// How deeply tables nest in a value.
pub open spec fn depth(v: Val) -> nat
    decreases v, 0int,
{
    match v {
        Val::Table(_, es) => 1 + max_depth(es, es.len() as int),
        _ => 0,
    }
}

/// The greatest depth among the first `n` entry values.
pub open spec fn max_depth(es: Seq<(Key, Val)>, n: int) -> nat
    decreases es, n,
{
    if n <= 0 || n > es.len() {
        0
    } else {
        let a = max_depth(es, n - 1);
        let b = depth(es[n - 1].1);
        if a >= b {
            a
        } else {
            b
        }
    }
}

proof fn lemma_max_depth(es: Seq<(Key, Val)>, n: int, i: int)
    requires
        0 <= i < n <= es.len(),
    ensures
        depth(es[i].1) <= max_depth(es, n),
    decreases n,
{
    if i < n - 1 {
        lemma_max_depth(es, n - 1, i);
    }
}

/// The wire text of the first `n` entries of `es` depends on those entries alone.
pub proof fn lemma_enc_entries_take(es: Seq<(Key, Val)>, t: Seq<(Key, Val)>, n: int)
    requires
        0 <= n <= es.len(),
        n <= t.len(),
        es.take(n) == t.take(n),
    ensures
        enc_entries(es, n) == enc_entries(t, n),
    decreases n,
{
    if n > 0 {
        assert(es.take(n - 1) =~= t.take(n - 1)) by {
            assert forall|i: int| 0 <= i < n - 1 implies #[trigger] es.take(n - 1)[i] == t.take(n - 1)[i] by {
                assert(es.take(n)[i] == t.take(n)[i]);
            }
        }
        lemma_enc_entries_take(es, t, n - 1);
        assert(es.take(n)[n - 1] == t.take(n)[n - 1]);
    }
}

fn push_all(out: &mut Vec<u8>, b: &[u8])
    ensures
        final(out)@ == old(out)@ + b@,
{
    let mut i: usize = 0;
    while i < b.len()
        invariant
            i <= b@.len(),
            out@ == old(out)@ + b@.subrange(0, i as int),
        decreases b@.len() - i,
    {
        out.push(b[i]);
        i = i + 1;
        assert(out@ =~= old(out)@ + b@.subrange(0, i as int));
    }
    assert(b@.subrange(0, i as int) =~= b@);
}

/// Appends `6:"A to Z"` for the bytes `A to Z`.
fn write_quoted(out: &mut Vec<u8>, b: &[u8])
    ensures
        final(out)@ == old(out)@ + quoted(b@),
{
    let mut e: Vec<u8> = Vec::new();
    write_escaped(&mut e, b);
    assert(e@ =~= escape(b@));
    write_nat(out, e.len() as u64);
    out.push(58u8);
    out.push(34u8);
    out.append(&mut e);
    out.push(34u8);
    assert(final(out)@ =~= old(out)@ + quoted(b@));
}

/// Appends the wire text of a string.
pub fn encode_string(out: &mut Vec<u8>, s: &LuaString)
    ensures
        final(out)@ == old(out)@ + enc_str(s@),
{
    out.push(115u8);
    out.push(58u8);
    write_quoted(out, s.as_raw());
    out.push(59u8);
    assert(final(out)@ =~= old(out)@ + enc_str(s@));
}

/// Appends the wire text of an integer.
pub fn encode_integer(out: &mut Vec<u8>, i: i32)
    ensures
        final(out)@ == old(out)@ + enc_int(i as int),
{
    out.push(105u8);
    out.push(58u8);
    write_int(out, i);
    out.push(59u8);
    assert(final(out)@ =~= old(out)@ + enc_int(i as int));
}

pub fn encode_key(out: &mut Vec<u8>, k: &LuaKey)
    ensures
        final(out)@ == old(out)@ + enc_key(k@),
{
    match k {
        LuaKey::Integer(i) => encode_integer(out, i.to_raw()),
        LuaKey::String(s) => encode_string(out, s),
    }
}

/// Appends the wire text of a value.
pub fn encode_value(out: &mut Vec<u8>, v: &LuaValue)
    ensures
        final(out)@ == old(out)@ + enc_value(v@),
    decreases depth(v@), 1int,
{
    match v {
        LuaValue::String(s) => encode_string(out, s),
        LuaValue::Integer(i) => encode_integer(out, i.to_raw()),
        LuaValue::Float(f) => {
            out.push(100u8);
            out.push(58u8);
            push_all(out, f.as_text());
            out.push(59u8);
            assert(final(out)@ =~= old(out)@ + enc_value(v@));
        },
        LuaValue::Bool(b) => {
            out.push(98u8);
            out.push(58u8);
            out.push(if b.to_raw() { 49u8 } else { 48u8 });
            out.push(59u8);
            assert(final(out)@ =~= old(out)@ + enc_value(v@));
        },
        LuaValue::Null(_) => {
            out.push(78u8);
            out.push(59u8);
            assert(final(out)@ =~= old(out)@ + enc_value(v@));
        },
        LuaValue::Table(t) => encode_table(out, t),
    }
}

/// Appends the wire text of a table.
pub fn encode_table(out: &mut Vec<u8>, t: &LuaTable)
    ensures
        final(out)@ == old(out)@ + enc_value(t@),
    decreases depth(t@), 0int,
{
    let n = t.len();
    let ghost es = entries_of(t@);
    match t.class() {
        None => {
            out.push(97u8);
            out.push(58u8);
        },
        Some(c) => {
            out.push(79u8);
            out.push(58u8);
            write_quoted(out, c.as_raw());
            out.push(58u8);
        },
    }
    let ghost head = out@;
    assert(head =~= old(out)@ + table_head(class_of(t@)));
    write_nat(out, n as u64);
    out.push(58u8);
    out.push(123u8);
    let ghost body = out@;
    let mut i: usize = 0;
    while i < n
        invariant
            i <= n == es.len(),
            es == entries_of(t@),
            t@ is Table,
            out@ == body + enc_entries(es, i as int),
        decreases n - i,
    {
        let (k, v) = t.entry(i);
        encode_key(out, k);
        proof {
            lemma_max_depth(es, n as int, i as int);
        }
        encode_value(out, v);
        i = i + 1;
        assert(out@ =~= body + enc_entries(es, i as int));
    }
    out.push(125u8);
    assert(final(out)@ =~= old(out)@ + enc_value(t@));
}

/// The wire text of a value.
pub fn encode(v: &LuaValue) -> (r: Vec<u8>)
    ensures
        r@ == enc_value(v@),
        v@.wf(),
{
    crate::value::value_wf(v);
    let mut out: Vec<u8> = Vec::new();
    encode_value(&mut out, v);
    assert(out@ =~= enc_value(v@));
    out
}

pub proof fn lemma_holds_byte(s: Seq<u8>, p: int, a: u8)
    ensures
        holds_at(s, p, seq![a]) <==> (0 <= p < s.len() && s[p] == a),
{
    if 0 <= p < s.len() && s[p] == a {
        assert(s.subrange(p, p + 1) =~= seq![a]);
    }
    if holds_at(s, p, seq![a]) {
        assert(s.subrange(p, p + 1)[0] == s[p]);
    }
}

pub proof fn lemma_holds_byte2(s: Seq<u8>, p: int, a: u8, b: u8)
    ensures
        holds_at(s, p, seq![a, b]) <==> (0 <= p && p + 1 < s.len() && s[p] == a && s[p + 1] == b),
{
    assert(seq![a, b] =~= seq![a] + seq![b]);
    lemma_holds_split(s, p, seq![a], seq![b]);
    lemma_holds_byte(s, p, a);
    lemma_holds_byte(s, p + 1, b);
}

/// The parts of a quoted text.
pub proof fn lemma_quoted_at(s: Seq<u8>, pos: int, b: Seq<u8>)
    ensures
        holds_at(s, pos, quoted(b)) <==> {
            let e = escape(b);
            let d = dec_nat(e.len());
            &&& holds_at(s, pos, d)
            &&& holds_at(s, pos + d.len(), seq![58u8, 34u8])
            &&& holds_at(s, pos + d.len() + 2, e)
            &&& holds_at(s, pos + d.len() + 2 + e.len(), seq![34u8])
        },
{
    let e = escape(b);
    let d = dec_nat(e.len());
    lemma_holds_split(s, pos, d + seq![58u8, 34u8] + e, seq![34u8]);
    lemma_holds_split(s, pos, d + seq![58u8, 34u8], e);
    lemma_holds_split(s, pos, d, seq![58u8, 34u8]);
}

/// At `pos` stand a declared length `n`, a colon and a quote, but no closing quote follows
/// `n` bytes later.
pub open spec fn length_mismatch(s: Seq<u8>, pos: int, n: nat) -> bool {
    let q = pos + dec_nat(n).len();
    &&& n <= u32::MAX
    &&& holds_at(s, pos, dec_nat(n))
    &&& q + 1 < s.len() && s[q] == 58 && s[q + 1] == 34
    &&& !(q + 2 + n < s.len() && s[q + 2 + n] == 34)
}

/// Reads a quoted text at `pos`: its declared length, a colon, and the text in quotes.
fn decode_quoted(s: &[u8], pos: usize) -> (r: Result<(Vec<u8>, usize), DecodeError>)
    requires
        pos <= s@.len(),
    ensures
        r matches Ok((b, e)) ==> e == pos + quoted(b@).len() && holds_at(s@, pos as int, quoted(b@)),
        forall|b: Seq<u8>|
            holds_at(s@, pos as int, #[trigger] quoted(b)) ==> (r matches Ok((v, e)) && v@ == b),
        forall|n: nat|
            length_mismatch(s@, pos as int, n) ==> r == Err::<(Vec<u8>, usize), DecodeError>(
                DecodeError::BadLength,
            ),
{
    let r1 = scan_nat(s, pos, s.len() as u64);
    proof {
        assert forall|b: Seq<u8>| holds_at(s@, pos as int, #[trigger] quoted(b)) implies {
            let e = escape(b);
            let d = dec_nat(e.len());
            &&& r1 == Some((e.len() as u64, (pos + d.len()) as usize))
            &&& pos + d.len() + 2 + e.len() < s@.len()
            &&& s@[pos + d.len()] == 58 && s@[pos + d.len() + 1] == 34
            &&& s@[pos + d.len() + 2 + e.len()] == 34
            &&& s@.subrange(pos + d.len() + 2, pos + d.len() + 2 + e.len()) == e
        } by {
            let e = escape(b);
            let d = dec_nat(e.len());
            lemma_quoted_at(s@, pos as int, b);
            lemma_holds_byte2(s@, pos + d.len(), 58u8, 34u8);
            lemma_holds_byte(s@, pos + d.len() + 2 + e.len(), 34u8);
            assert(digits_end_at(s@, pos + d.len()));
        }
    }
    proof {
        assert forall|n: nat| length_mismatch(s@, pos as int, n) implies (n <= s@.len() ==> r1 == Some(
            (n as u64, (pos + dec_nat(n).len()) as usize),
        )) && (n > s@.len() ==> r1 is None) by {
            let q = pos + dec_nat(n).len();
            assert(digits_end_at(s@, q));
            if n > s@.len() {
                if r1 is Some {
                    let (v, e) = r1->Some_0;
                    lemma_nat_unique(s@, pos as int, v as nat, n);
                }
            }
        }
    }
    let (n, p) = match r1 {
        Some(x) => x,
        None => {
            return match scan_nat(s, pos, 0xffff_ffff) {
                Some(_) => Err(DecodeError::BadLength),
                None => Err(DecodeError::BadNumber),
            };
        },
    };
    if !(s.len() - p > 1 && s[p] == 58 && s[p + 1] == 34) {
        return Err(DecodeError::Malformed);
    }
    let a = p + 2;
    if n >= (s.len() - a) as u64 || s[a + n as usize] != 34 {
        return Err(DecodeError::BadLength);
    }
    let b = a + n as usize;
    match read_escaped(s, a, b) {
        Some(v) => {
            proof {
                lemma_escape_unescape(s@.subrange(a as int, b as int));
                let e = escape(v@);
                assert(e == s@.subrange(a as int, b as int));
                lemma_holds_byte2(s@, p as int, 58u8, 34u8);
                lemma_holds_byte(s@, b as int, 34u8);
                lemma_quoted_at(s@, pos as int, v@);
                assert forall|w: Seq<u8>| holds_at(s@, pos as int, #[trigger] quoted(w)) implies v@
                    == w by {
                    lemma_unescape_escape(w);
                }
            }
            Ok((v, b + 1))
        },
        None => {
            proof {
                assert forall|w: Seq<u8>| holds_at(s@, pos as int, #[trigger] quoted(w)) implies false by {
                    lemma_unescape_escape(w);
                }
            }
            Err(DecodeError::Malformed)
        },
    }
}

/// Reads a string at `pos`.
pub fn decode_string(s: &[u8], pos: usize) -> (r: Result<(LuaString, usize), DecodeError>)
    requires
        pos <= s@.len(),
    ensures
        r matches Ok((v, e)) ==> e == pos + enc_str(v@).len() && holds_at(s@, pos as int, enc_str(v@)),
        forall|b: Seq<u8>|
            holds_at(s@, pos as int, #[trigger] enc_str(b)) ==> (r matches Ok((v, e)) && v@ == b),
        forall|n: nat|
            pos + 1 < s@.len() && s@[pos as int] == 115 && s@[pos + 1] == 58 && #[trigger] length_mismatch(
                s@,
                pos + 2,
                n,
            ) ==> r == Err::<(LuaString, usize), DecodeError>(DecodeError::BadLength),
{
    proof {
        assert forall|b: Seq<u8>| holds_at(s@, pos as int, #[trigger] enc_str(b)) implies {
            &&& pos + 1 < s@.len() && s@[pos as int] == 115 && s@[pos + 1] == 58
            &&& holds_at(s@, pos + 2, quoted(b))
            &&& holds_at(s@, pos + 2 + quoted(b).len(), seq![59u8])
        } by {
            lemma_holds_split(s@, pos as int, seq![115u8, 58u8] + quoted(b), seq![59u8]);
            lemma_holds_split(s@, pos as int, seq![115u8, 58u8], quoted(b));
            lemma_holds_byte2(s@, pos as int, 115u8, 58u8);
        }
    }
    if !(s.len() - pos > 1 && s[pos] == 115 && s[pos + 1] == 58) {
        return Err(
            if pos < s.len() && s[pos] != 115 {
                DecodeError::UnexpectedPrefix
            } else {
                DecodeError::Malformed
            },
        );
    }
    let (b, e) = match decode_quoted(s, pos + 2) {
        Ok(x) => x,
        Err(err) => {
            return Err(err);
        },
    };
    proof {
        assert forall|w: Seq<u8>| holds_at(s@, pos as int, #[trigger] enc_str(w)) implies w == b@ by {}
        lemma_holds_byte(s@, e as int, 59u8);
    }
    if !(e < s.len() && s[e] == 59) {
        return Err(DecodeError::Malformed);
    }
    proof {
        lemma_holds_byte2(s@, pos as int, 115u8, 58u8);
        lemma_holds_split(s@, pos as int, seq![115u8, 58u8], quoted(b@));
        lemma_holds_split(s@, pos as int, seq![115u8, 58u8] + quoted(b@), seq![59u8]);
    }
    Ok((LuaString::from_bytes(b), e + 1))
}

/// Reads an integer at `pos`.
pub fn decode_integer(s: &[u8], pos: usize) -> (r: Result<(i32, usize), DecodeError>)
    requires
        pos <= s@.len(),
    ensures
        r matches Ok((v, e)) ==> e == pos + enc_int(v as int).len() && holds_at(
            s@,
            pos as int,
            enc_int(v as int),
        ),
        forall|i: int|
            i32::MIN <= i <= i32::MAX && holds_at(s@, pos as int, #[trigger] enc_int(i)) ==> (r matches Ok(
                (v, e),
            ) && v == i),
{
    proof {
        assert forall|i: int|
            i32::MIN <= i <= i32::MAX && holds_at(s@, pos as int, #[trigger] enc_int(i)) implies {
            &&& pos + 1 < s@.len() && s@[pos as int] == 105 && s@[pos + 1] == 58
            &&& holds_at(s@, pos + 2, dec_int(i))
            &&& holds_at(s@, pos + 2 + dec_int(i).len(), seq![59u8])
            &&& (i < 0 ==> pos + 2 < s@.len() && s@[pos + 2] == 45 && holds_at(
                s@,
                pos + 3,
                dec_nat((-i) as nat),
            ))
            &&& (i >= 0 ==> pos + 2 < s@.len() && s@[pos + 2] != 45)
        } by {
            lemma_holds_split(s@, pos as int, seq![105u8, 58u8] + dec_int(i), seq![59u8]);
            lemma_holds_split(s@, pos as int, seq![105u8, 58u8], dec_int(i));
            lemma_holds_byte2(s@, pos as int, 105u8, 58u8);
            if i < 0 {
                lemma_holds_split(s@, pos + 2, seq![45u8], dec_nat((-i) as nat));
                lemma_holds_byte(s@, pos + 2, 45u8);
            } else {
                lemma_dec_nat(i as nat);
                assert(is_digit(dec_nat(i as nat)[0]));
                assert(s@[pos + 2] == dec_int(i)[0]);
            }
        }
    }
    if !(s.len() - pos > 1 && s[pos] == 105 && s[pos + 1] == 58) {
        return Err(
            if pos < s.len() && s[pos] != 105 {
                DecodeError::UnexpectedPrefix
            } else {
                DecodeError::Malformed
            },
        );
    }
    let neg = s.len() - pos > 2 && s[pos + 2] == 45;
    let start: usize = if neg {
        pos + 3
    } else {
        pos + 2
    };
    let limit: u64 = if neg {
        2147483648
    } else {
        2147483647
    };
    let (n, q) = match scan_nat(s, start, limit) {
        Some(x) => x,
        None => {
            proof {
                assert forall|i: int|
                    i32::MIN <= i <= i32::MAX && holds_at(s@, pos as int, #[trigger] enc_int(i)) implies false by {
                    lemma_holds_split(s@, pos + 2, dec_int(i), seq![59u8]);
                    lemma_holds_byte(s@, pos + 2 + dec_int(i).len(), 59u8);
                    if i < 0 {
                        assert(digits_end_at(s@, pos + 3 + dec_nat((-i) as nat).len()));
                    } else {
                        assert(digits_end_at(s@, pos + 2 + dec_nat(i as nat).len()));
                    }
                }
            }
            return Err(DecodeError::BadNumber);
        },
    };
    proof {
        assert forall|i: int|
            i32::MIN <= i <= i32::MAX && holds_at(s@, pos as int, #[trigger] enc_int(i)) implies (if i
            < 0 {
            n == -i
        } else {
            n == i
        }) && q == pos + 2 + dec_int(i).len() by {
            lemma_holds_byte(s@, pos + 2 + dec_int(i).len(), 59u8);
            if i < 0 {
                assert(digits_end_at(s@, pos + 3 + dec_nat((-i) as nat).len()));
            } else {
                assert(digits_end_at(s@, pos + 2 + dec_nat(i as nat).len()));
            }
        }
    }
    if neg && n == 0 {
        return Err(DecodeError::BadNumber);
    }
    if !(q < s.len() && s[q] == 59) {
        proof {
            assert forall|i: int|
                i32::MIN <= i <= i32::MAX && holds_at(s@, pos as int, #[trigger] enc_int(i)) implies false by {
                lemma_holds_byte(s@, pos + 2 + dec_int(i).len(), 59u8);
            }
        }
        return Err(DecodeError::Malformed);
    }
    let v: i32 = if neg {
        (-(n as i64)) as i32
    } else {
        n as i32
    };
    proof {
        lemma_holds_byte2(s@, pos as int, 105u8, 58u8);
        lemma_holds_byte(s@, q as int, 59u8);
        if neg {
            lemma_holds_byte(s@, pos + 2, 45u8);
            assert(s@.subrange(start as int, q as int) == dec_nat(n as nat));
            lemma_holds_split(s@, pos + 2, seq![45u8], dec_nat(n as nat));
            assert(dec_int(v as int) == seq![45u8] + dec_nat(n as nat));
        }
        lemma_holds_split(s@, pos as int, seq![105u8, 58u8], dec_int(v as int));
        lemma_holds_split(s@, pos as int, seq![105u8, 58u8] + dec_int(v as int), seq![59u8]);
    }
    Ok((v, q + 1))
}

/// A float text holds no semicolon.
proof fn lemma_token_no_semicolon(t: Seq<u8>)
    requires
        float_token(t),
    ensures
        forall|i: int| 0 <= i < t.len() ==> t[i] != 59,
{
    if float_literal(t) {
        let a: int = if t.len() > 0 && t[0] == 45 {
            1
        } else {
            0
        };
        if digit_run(t, a, t.len() as int) {
            assert forall|i: int| 0 <= i < t.len() implies t[i] != 59 by {
                if i >= a {
                    assert(is_digit(t[i]));
                }
            }
        } else {
            let p = choose|p: int|
                a < p < t.len() && t[p] == 46 && digit_run(t, a, p) && digit_run(
                    t,
                    p + 1,
                    t.len() as int,
                );
            assert forall|i: int| 0 <= i < t.len() implies t[i] != 59 by {
                if a <= i < p {
                    assert(is_digit(t[i]));
                } else if i > p {
                    assert(is_digit(t[i]));
                }
            }
        }
    }
}

/// Reads a float at `pos`.
pub fn decode_float(s: &[u8], pos: usize) -> (r: Result<(LuaFloat, usize), DecodeError>)
    requires
        pos <= s@.len(),
    ensures
        r matches Ok((f, e)) ==> e == pos + enc_float(f@).len() && holds_at(s@, pos as int, enc_float(f@))
            && float_token(f@),
        forall|t: Seq<u8>|
            float_token(t) && holds_at(s@, pos as int, #[trigger] enc_float(t)) ==> (r matches Ok(
                (f, e),
            ) && f@ == t),
{
    proof {
        assert forall|t: Seq<u8>| float_token(t) && holds_at(s@, pos as int, #[trigger] enc_float(t)) implies {
            &&& pos + 1 < s@.len() && s@[pos as int] == 100 && s@[pos + 1] == 58
            &&& holds_at(s@, pos + 2, t)
            &&& pos + 2 + t.len() < s@.len() && s@[pos + 2 + t.len()] == 59
        } by {
            lemma_holds_split(s@, pos as int, seq![100u8, 58u8] + t, seq![59u8]);
            lemma_holds_split(s@, pos as int, seq![100u8, 58u8], t);
            lemma_holds_byte2(s@, pos as int, 100u8, 58u8);
            lemma_holds_byte(s@, pos + 2 + t.len(), 59u8);
        }
    }
    if !(s.len() - pos > 1 && s[pos] == 100 && s[pos + 1] == 58) {
        return Err(
            if pos < s.len() && s[pos] != 100 {
                DecodeError::UnexpectedPrefix
            } else {
                DecodeError::Malformed
            },
        );
    }
    let mut q: usize = pos + 2;
    while q < s.len() && s[q] != 59
        invariant
            pos + 2 <= q <= s@.len(),
            forall|i: int| pos + 2 <= i < q ==> s@[i] != 59,
        decreases s@.len() - q,
    {
        q = q + 1;
    }
    proof {
        assert forall|t: Seq<u8>| float_token(t) && holds_at(s@, pos as int, #[trigger] enc_float(t)) implies q
            == pos + 2 + t.len() && s@.subrange(pos + 2, q as int) == t by {
            lemma_token_no_semicolon(t);
            if q < pos + 2 + t.len() {
                assert(s@[q as int] == t[q - pos - 2]);
            }
        }
    }
    if q == s.len() {
        return Err(DecodeError::Malformed);
    }
    match LuaFloat::from_text(vstd::slice::slice_subrange(s, pos + 2, q)) {
        Some(f) => {
            proof {
                lemma_holds_byte2(s@, pos as int, 100u8, 58u8);
                lemma_holds_byte(s@, q as int, 59u8);
                lemma_holds_split(s@, pos as int, seq![100u8, 58u8], f@);
                lemma_holds_split(s@, pos as int, seq![100u8, 58u8] + f@, seq![59u8]);
            }
            Ok((f, q + 1))
        },
        None => Err(DecodeError::BadNumber),
    }
}

/// Reads a boolean at `pos`.
pub fn decode_bool(s: &[u8], pos: usize) -> (r: Result<(bool, usize), DecodeError>)
    requires
        pos <= s@.len(),
    ensures
        r matches Ok((b, e)) ==> e == pos + 4 && holds_at(s@, pos as int, enc_bool(b)),
        forall|b: bool| holds_at(s@, pos as int, #[trigger] enc_bool(b)) ==> r == Ok::<(bool, usize), DecodeError>((b, (pos + 4) as usize)),
{
    proof {
        assert forall|b: bool| holds_at(s@, pos as int, #[trigger] enc_bool(b)) implies pos + 3 < s@.len()
            && s@[pos as int] == 98 && s@[pos + 1] == 58 && s@[pos + 2] == (if b { 49u8 } else { 48u8 })
            && s@[pos + 3] == 59 by {
            assert(s@.subrange(pos as int, pos + 4)[0] == s@[pos as int]);
            assert(s@.subrange(pos as int, pos + 4)[1] == s@[pos + 1]);
            assert(s@.subrange(pos as int, pos + 4)[2] == s@[pos + 2]);
            assert(s@.subrange(pos as int, pos + 4)[3] == s@[pos + 3]);
        }
    }
    if !(s.len() - pos > 3 && s[pos] == 98 && s[pos + 1] == 58 && (s[pos + 2] == 48 || s[pos + 2]
        == 49) && s[pos + 3] == 59) {
        return Err(
            if pos < s.len() && s[pos] != 98 {
                DecodeError::UnexpectedPrefix
            } else {
                DecodeError::Malformed
            },
        );
    }
    let b = s[pos + 2] == 49;
    assert(s@.subrange(pos as int, pos + 4) =~= enc_bool(b));
    Ok((b, pos + 4))
}

/// Reads a null at `pos`.
pub fn decode_null(s: &[u8], pos: usize) -> (r: Result<usize, DecodeError>)
    requires
        pos <= s@.len(),
    ensures
        r matches Ok(e) ==> e == pos + 2 && holds_at(s@, pos as int, enc_null()),
        r is Ok <==> holds_at(s@, pos as int, enc_null()),
{
    proof {
        lemma_holds_byte2(s@, pos as int, 78u8, 59u8);
    }
    if !(s.len() - pos > 1 && s[pos] == 78 && s[pos + 1] == 59) {
        return Err(
            if pos < s.len() && s[pos] != 78 {
                DecodeError::UnexpectedPrefix
            } else {
                DecodeError::Malformed
            },
        );
    }
    Ok(pos + 2)
}

/// Reads a table key at `pos`: a string or an integer.
pub fn decode_key(s: &[u8], pos: usize) -> (r: Result<(LuaKey, usize), DecodeError>)
    requires
        pos <= s@.len(),
    ensures
        r matches Ok((k, e)) ==> pos < e && e == pos + enc_key(k@).len() && holds_at(
            s@,
            pos as int,
            enc_key(k@),
        ),
        forall|k: Key| k.wf() && holds_at(s@, pos as int, #[trigger] enc_key(k)) ==> (r matches Ok(
            (v, e),
        ) && v@ == k),
        pos < s@.len() && s@[pos as int] != 115 && s@[pos as int] != 105 ==> r == Err::<
            (LuaKey, usize),
            DecodeError,
        >(DecodeError::UnexpectedPrefix),
{
    proof {
        assert forall|k: Key| k.wf() && holds_at(s@, pos as int, #[trigger] enc_key(k)) implies pos
            < s@.len() && s@[pos as int] == (if k is Int { 105u8 } else { 115u8 }) by {
            assert(s@[pos as int] == enc_key(k)[0]);
        }
    }
    if pos >= s.len() {
        return Err(DecodeError::Malformed);
    }
    let c = s[pos];
    if c == 115 {
        match decode_string(s, pos) {
            Ok((v, e)) => Ok((LuaKey::String(v), e)),
            Err(err) => Err(err),
        }
    } else if c == 105 {
        match decode_integer(s, pos) {
            Ok((v, e)) => Ok((LuaKey::index(v), e)),
            Err(err) => Err(err),
        }
    } else {
        Err(DecodeError::UnexpectedPrefix)
    }
}

/// A byte that a value's wire text may start with: `s i d b N a O`.
pub open spec fn is_tag(c: u8) -> bool {
    c == 115 || c == 105 || c == 100 || c == 98 || c == 78 || c == 97 || c == 79
}

/// `s` holds at `pos` the wire text of the valid value `w`.
pub open spec fn encodes_at(s: Seq<u8>, pos: int, w: Val) -> bool {
    w.wf() && holds_at(s, pos, enc_value(w))
}

/// The byte that the wire text of a value starts with.
pub open spec fn tag(w: Val) -> u8 {
    match w {
        Val::Str(_) => 115,
        Val::Int(_) => 105,
        Val::Float(_) => 100,
        Val::Bool(_) => 98,
        Val::Null => 78,
        Val::Table(None, _) => 97,
        Val::Table(Some(_), _) => 79,
    }
}

proof fn lemma_tag(s: Seq<u8>, pos: int, w: Val)
    requires
        holds_at(s, pos, enc_value(w)),
    ensures
        0 <= pos < s.len() && s[pos] == tag(w),
{
    let e = enc_value(w);
    match w {
        Val::Table(c, es) => {
            let h = table_head(c);
            assert(e == h + (dec_nat(es.len()) + seq![58u8, 123u8] + enc_entries(es, es.len() as int)
                + seq![125u8])) by {
                assert(e =~= h + (dec_nat(es.len()) + seq![58u8, 123u8] + enc_entries(
                    es,
                    es.len() as int,
                ) + seq![125u8]));
            }
            assert(e[0] == h[0]);
        },
        _ => {},
    }
    assert(s[pos] == s.subrange(pos, pos + e.len())[0]);
}

proof fn lemma_enc_entries_prefix(s: Seq<u8>, p: int, es: Seq<(Key, Val)>, k: int, n: int)
    requires
        holds_at(s, p, enc_entries(es, n)),
        0 <= k <= n <= es.len(),
    ensures
        holds_at(s, p, enc_entries(es, k)),
    decreases n,
{
    if k < n {
        lemma_holds_split(
            s,
            p,
            enc_entries(es, n - 1) + enc_key(es[n - 1].0),
            enc_value(es[n - 1].1),
        );
        lemma_holds_split(s, p, enc_entries(es, n - 1), enc_key(es[n - 1].0));
        lemma_enc_entries_prefix(s, p, es, k, n - 1);
    }
}

proof fn lemma_enc_entries_len(es: Seq<(Key, Val)>, n: int)
    requires
        0 <= n <= es.len(),
    ensures
        enc_entries(es, n).len() >= n,
    decreases n,
{
    if n > 0 {
        lemma_enc_entries_len(es, n - 1);
    }
}

/// The parts of a table's wire text.
proof fn lemma_table_parts(s: Seq<u8>, pos: int, c: Option<Seq<u8>>, es: Seq<(Key, Val)>)
    ensures
        holds_at(s, pos, enc_value(Val::Table(c, es))) <==> {
            let h = table_head(c);
            let d = dec_nat(es.len());
            let b = enc_entries(es, es.len() as int);
            &&& holds_at(s, pos, h)
            &&& holds_at(s, pos + h.len(), d)
            &&& holds_at(s, pos + h.len() + d.len(), seq![58u8, 123u8])
            &&& holds_at(s, pos + h.len() + d.len() + 2, b)
            &&& holds_at(s, pos + h.len() + d.len() + 2 + b.len(), seq![125u8])
        },
{
    let h = table_head(c);
    let d = dec_nat(es.len());
    let b = enc_entries(es, es.len() as int);
    lemma_holds_split(s, pos, h + d + seq![58u8, 123u8] + b, seq![125u8]);
    lemma_holds_split(s, pos, h + d + seq![58u8, 123u8], b);
    lemma_holds_split(s, pos, h + d, seq![58u8, 123u8]);
    lemma_holds_split(s, pos, h, d);
}

/// The parts of a class name head.
proof fn lemma_head_parts(s: Seq<u8>, pos: int, n: Seq<u8>)
    ensures
        holds_at(s, pos, table_head(Some(n))) <==> {
            &&& holds_at(s, pos, seq![79u8, 58u8])
            &&& holds_at(s, pos + 2, quoted(n))
            &&& holds_at(s, pos + 2 + quoted(n).len(), seq![58u8])
        },
{
    lemma_holds_split(s, pos, seq![79u8, 58u8] + quoted(n), seq![58u8]);
    lemma_holds_split(s, pos, seq![79u8, 58u8], quoted(n));
}

/// Reads a value at `pos`.
pub fn decode_value(s: &[u8], pos: usize) -> (r: Result<(LuaValue, usize), DecodeError>)
    requires
        pos <= s@.len(),
    ensures
        r matches Ok((v, e)) ==> e == pos + enc_value(v@).len() && holds_at(s@, pos as int, enc_value(v@))
            && v@.wf(),
        forall|w: Val| #[trigger] encodes_at(s@, pos as int, w) ==> (r matches Ok((v, e)) && v@ == w),
        pos < s@.len() && !is_tag(s@[pos as int]) ==> r == Err::<(LuaValue, usize), DecodeError>(
            DecodeError::UnexpectedPrefix,
        ),
        forall|c: Option<Seq<u8>>, es: Seq<(Key, Val)>, m: nat| #[trigger]
            count_mismatch_at(s@, pos as int, c, es, m) ==> r matches Err(DecodeError::BadLength),
    decreases s@.len() - pos, 1int,
{
    proof {
        assert forall|c: Option<Seq<u8>>, es: Seq<(Key, Val)>, m: nat| #[trigger]
            count_mismatch_at(s@, pos as int, c, es, m) implies pos < s@.len() && (s@[pos as int] == 97
            || s@[pos as int] == 79) by {
            lemma_table_at_tag(s@, pos as int, c, es, m);
        }
    }
    proof {
        assert forall|w: Val| #[trigger] encodes_at(s@, pos as int, w) implies pos < s@.len() && s@[pos as int]
            == tag(w) by {
            lemma_tag(s@, pos as int, w);
        }
    }
    if pos >= s.len() {
        return Err(DecodeError::Malformed);
    }
    let c = s[pos];
    if c == 115 {
        match decode_string(s, pos) {
            Ok((v, e)) => Ok((LuaValue::String(v), e)),
            Err(err) => Err(err),
        }
    } else if c == 105 {
        match decode_integer(s, pos) {
            Ok((v, e)) => Ok((LuaValue::Integer(LuaInteger::new(v)), e)),
            Err(err) => Err(err),
        }
    } else if c == 100 {
        match decode_float(s, pos) {
            Ok((v, e)) => Ok((LuaValue::Float(v), e)),
            Err(err) => Err(err),
        }
    } else if c == 98 {
        match decode_bool(s, pos) {
            Ok((v, e)) => Ok((LuaValue::Bool(LuaBool::new(v)), e)),
            Err(err) => Err(err),
        }
    } else if c == 78 {
        match decode_null(s, pos) {
            Ok(e) => Ok((LuaValue::Null(LuaNull::new()), e)),
            Err(err) => Err(err),
        }
    } else if c == 97 || c == 79 {
        match decode_table(s, pos) {
            Ok((t, e)) => {
                proof {
                    assert forall|w: Val| #[trigger] encodes_at(s@, pos as int, w) implies w is Table by {}
                }
                Ok((LuaValue::Table(t), e))
            },
            Err(err) => Err(err),
        }
    } else {
        Err(DecodeError::UnexpectedPrefix)
    }
}

/// Reads the head of a table at `pos`: `a:`, or `O:` with a quoted class name and a colon.
/// Yields an empty table with that class name.
fn decode_table_head(s: &[u8], pos: usize) -> (r: Result<(LuaTable, usize), DecodeError>)
    requires
        pos <= s@.len(),
    ensures
        r matches Ok((t, p)) ==> t@ == Val::Table(class_of(t@), Seq::empty()) && p == pos
            + table_head(class_of(t@)).len() && holds_at(s@, pos as int, table_head(class_of(t@))),
        forall|c: Option<Seq<u8>>|
            holds_at(s@, pos as int, #[trigger] table_head(c)) ==> (r matches Ok((t, p)) && class_of(t@)
                == c),
        pos < s@.len() && s@[pos as int] != 97 && s@[pos as int] != 79 ==> r == Err::<
            (LuaTable, usize),
            DecodeError,
        >(DecodeError::UnexpectedPrefix),
{
    proof {
        assert forall|c: Option<Seq<u8>>| holds_at(s@, pos as int, #[trigger] table_head(c)) implies s@.len()
            - pos > 1 && s@[pos + 1] == 58 && s@[pos as int] == (if c is None { 97u8 } else { 79u8 }) by {
            match c {
                None => lemma_holds_byte2(s@, pos as int, 97u8, 58u8),
                Some(n) => {
                    lemma_head_parts(s@, pos as int, n);
                    lemma_holds_byte2(s@, pos as int, 79u8, 58u8);
                },
            }
        }
    }
    if !(s.len() - pos > 1 && s[pos + 1] == 58 && (s[pos] == 97 || s[pos] == 79)) {
        return Err(
            if pos < s.len() && s[pos] != 97 && s[pos] != 79 {
                DecodeError::UnexpectedPrefix
            } else {
                DecodeError::Malformed
            },
        );
    }
    if s[pos] == 97 {
        proof {
            lemma_holds_byte2(s@, pos as int, 97u8, 58u8);
        }
        return Ok((LuaTable::new(), pos + 2));
    }
    let (name, name_end) = match decode_quoted(s, pos + 2) {
        Ok(x) => x,
        Err(err) => {
            proof {
                assert forall|c: Option<Seq<u8>>| holds_at(s@, pos as int, #[trigger] table_head(c)) implies false by {
                    if c is Some {
                        lemma_head_parts(s@, pos as int, c->Some_0);
                    }
                }
            }
            return Err(err);
        },
    };
    proof {
        assert forall|c: Option<Seq<u8>>| holds_at(s@, pos as int, #[trigger] table_head(c)) implies c
            == Some(name@) && name_end < s@.len() && s@[name_end as int] == 58 by {
            if c is Some {
                lemma_head_parts(s@, pos as int, c->Some_0);
                lemma_holds_byte(s@, name_end as int, 58u8);
            }
        }
    }
    if !(name_end < s.len() && s[name_end] == 58) {
        return Err(DecodeError::Malformed);
    }
    proof {
        lemma_holds_byte2(s@, pos as int, 79u8, 58u8);
        lemma_holds_byte(s@, name_end as int, 58u8);
        lemma_head_parts(s@, pos as int, name@);
    }
    Ok((LuaTable::with_class(LuaString::from_bytes(name)), name_end + 1))
}

/// The text of a table with class name `c` and entries `es` that declares `m` entries.
pub open spec fn enc_table_count(c: Option<Seq<u8>>, es: Seq<(Key, Val)>, m: nat) -> Seq<u8> {
    table_head(c) + dec_nat(m) + seq![58u8, 123u8] + enc_entries(es, es.len() as int) + seq![125u8]
}

/// At `pos` stands a table of valid entries `es` that declares `m` entries.
pub open spec fn table_at(s: Seq<u8>, pos: int, c: Option<Seq<u8>>, es: Seq<(Key, Val)>, m: nat) -> bool {
    Val::Table(c, es).wf() && holds_at(s, pos, enc_table_count(c, es, m))
}

/// At `pos` stands a table of valid entries whose declared count `m` is not their number.
pub open spec fn count_mismatch_at(s: Seq<u8>, pos: int, c: Option<Seq<u8>>, es: Seq<(Key, Val)>, m: nat) -> bool {
    m != es.len() && m <= u32::MAX && table_at(s, pos, c, es, m)
}

/// A table's text starts with `a` or `O`.
proof fn lemma_table_at_tag(s: Seq<u8>, pos: int, c: Option<Seq<u8>>, es: Seq<(Key, Val)>, m: nat)
    requires
        holds_at(s, pos, enc_table_count(c, es, m)),
    ensures
        pos < s.len() && (s[pos] == 97 || s[pos] == 79),
{
    lemma_table_count_parts(s, pos, c, es, m);
    match c {
        None => lemma_holds_byte2(s, pos, 97u8, 58u8),
        Some(n) => {
            lemma_head_parts(s, pos, n);
            lemma_holds_byte2(s, pos, 79u8, 58u8);
        },
    }
}

/// The parts of a table's text with a declared count.
proof fn lemma_table_count_parts(s: Seq<u8>, pos: int, c: Option<Seq<u8>>, es: Seq<(Key, Val)>, m: nat)
    ensures
        holds_at(s, pos, enc_table_count(c, es, m)) <==> {
            let h = table_head(c);
            let d = dec_nat(m);
            let b = enc_entries(es, es.len() as int);
            &&& holds_at(s, pos, h)
            &&& holds_at(s, pos + h.len(), d)
            &&& holds_at(s, pos + h.len() + d.len(), seq![58u8, 123u8])
            &&& holds_at(s, pos + h.len() + d.len() + 2, b)
            &&& holds_at(s, pos + h.len() + d.len() + 2 + b.len(), seq![125u8])
        },
{
    let h = table_head(c);
    let d = dec_nat(m);
    let b = enc_entries(es, es.len() as int);
    lemma_holds_split(s, pos, h + d + seq![58u8, 123u8] + b, seq![125u8]);
    lemma_holds_split(s, pos, h + d + seq![58u8, 123u8], b);
    lemma_holds_split(s, pos, h + d, seq![58u8, 123u8]);
    lemma_holds_split(s, pos, h, d);
}

/// What the table loop knows of the entries `we` of a table text at hand.
pub open spec fn tracks(s: Seq<u8>, body: int, we: Seq<(Key, Val)>, es: Seq<(Key, Val)>, k: int) -> bool {
    &&& es == we.take(k)
    &&& holds_at(s, body, enc_entries(we, we.len() as int))
    &&& k <= we.len()
}

/// The next entry of `we` stands where the loop reads.
proof fn lemma_next_entry(s: Seq<u8>, body: int, we: Seq<(Key, Val)>, es: Seq<(Key, Val)>, k: int)
    requires
        keys_distinct(we),
        entries_wf(we, we.len() as int),
        tracks(s, body, we, es, k),
        k < we.len(),
        es.len() == k,
    ensures
        ({
            let cur = body + enc_entries(es, k).len();
            &&& we[k].0.wf()
            &&& holds_at(s, cur, enc_key(we[k].0))
            &&& encodes_at(s, cur + enc_key(we[k].0).len(), we[k].1)
            &&& lookup(es, we[k].0) is None
            &&& cur < s.len() && s[cur] == enc_key(we[k].0)[0]
        }),
{
    lemma_enc_entries_prefix(s, body, we, k + 1, we.len() as int);
    assert(es.take(k) =~= we.take(k));
    lemma_enc_entries_take(we, es, k);
    lemma_holds_split(s, body, enc_entries(we, k) + enc_key(we[k].0), enc_value(we[k].1));
    lemma_holds_split(s, body, enc_entries(we, k), enc_key(we[k].0));
    lemma_entries_wf(we, we.len() as int);
    lemma_key_position(es, we[k].0);
    if key_position(es, we[k].0) >= 0 {
        let j = key_position(es, we[k].0);
        assert(es[j] == we[j]);
    }
    let cur = body + enc_entries(es, k).len();
    assert(s[cur] == s.subrange(cur, cur + enc_key(we[k].0).len())[0]);
}

/// Where every entry of `we` has been read, the closing brace follows.
proof fn lemma_last_entry(s: Seq<u8>, pos: int, c: Option<Seq<u8>>, we: Seq<(Key, Val)>, m: nat, body: int, es: Seq<(Key, Val)>)
    requires
        table_at(s, pos, c, we, m),
        body == pos + table_head(c).len() + dec_nat(m).len() + 2,
        tracks(s, body, we, es, we.len() as int),
    ensures
        ({
            let cur = body + enc_entries(es, we.len() as int).len();
            cur < s.len() && s[cur] == 125
        }),
{
    lemma_table_count_parts(s, pos, c, we, m);
    assert(es =~= we);
    let cur = body + enc_entries(es, we.len() as int).len();
    lemma_holds_byte(s, cur, 125u8);
}

/// Reads a table at `pos`: its head, the count, and the entries in braces.
#[verifier::rlimit(80)]
pub fn decode_table(s: &[u8], pos: usize) -> (r: Result<(LuaTable, usize), DecodeError>)
    requires
        pos <= s@.len(),
    ensures
        r matches Ok((t, e)) ==> e == pos + enc_value(t@).len() && holds_at(s@, pos as int, enc_value(t@))
            && t@.wf() && t@ is Table,
        forall|w: Val| #[trigger]
            encodes_at(s@, pos as int, w) && w is Table ==> (r matches Ok((t, e)) && t@ == w),
        forall|c: Option<Seq<u8>>, es: Seq<(Key, Val)>, m: nat| #[trigger]
            count_mismatch_at(s@, pos as int, c, es, m) ==> r == Err::<(LuaTable, usize), DecodeError>(
                DecodeError::BadLength,
            ),
        pos < s@.len() && s@[pos as int] != 97 && s@[pos as int] != 79 ==> r == Err::<
            (LuaTable, usize),
            DecodeError,
        >(DecodeError::UnexpectedPrefix),
    decreases s@.len() - pos, 0int,
{
    proof {
        assert forall|w: Val| #[trigger] encodes_at(s@, pos as int, w) && w is Table implies table_at(
            s@,
            pos as int,
            class_of(w),
            entries_of(w),
            entries_of(w).len(),
        ) by {
            assert(w == Val::Table(class_of(w), entries_of(w)));
            assert(enc_value(w) == enc_table_count(class_of(w), entries_of(w), entries_of(w).len()));
        }
        assert forall|c: Option<Seq<u8>>, es: Seq<(Key, Val)>, m: nat| #[trigger]
            table_at(s@, pos as int, c, es, m) implies holds_at(s@, pos as int, table_head(c)) && (c is None
            ==> s@[pos as int] == 97) && (c is Some ==> s@[pos as int] == 79) && pos < s@.len() by {
            lemma_table_count_parts(s@, pos as int, c, es, m);
            match c {
                None => lemma_holds_byte2(s@, pos as int, 97u8, 58u8),
                Some(n) => {
                    lemma_head_parts(s@, pos as int, n);
                    lemma_holds_byte2(s@, pos as int, 79u8, 58u8);
                },
            }
        }
    }
    let (mut table, p) = match decode_table_head(s, pos) {
        Ok(x) => x,
        Err(err) => {
            return Err(err);
        },
    };
    let ghost cls = class_of(table@);
    proof {
        assert(pos < s@.len() && (s@[pos as int] == 97 || s@[pos as int] == 79)) by {
            match cls {
                None => lemma_holds_byte2(s@, pos as int, 97u8, 58u8),
                Some(n) => {
                    lemma_head_parts(s@, pos as int, n);
                    lemma_holds_byte2(s@, pos as int, 79u8, 58u8);
                },
            }
        }
        assert forall|c: Option<Seq<u8>>, es: Seq<(Key, Val)>, m: nat| #[trigger]
            table_at(s@, pos as int, c, es, m) implies c == cls && {
            let d = dec_nat(m);
            &&& holds_at(s@, p as int, d)
            &&& holds_at(s@, p + d.len(), seq![58u8, 123u8])
            &&& digits_end_at(s@, p + d.len())
            &&& holds_at(s@, p + d.len() + 2, enc_entries(es, es.len() as int))
        } by {
            lemma_table_count_parts(s@, pos as int, c, es, m);
            lemma_holds_byte2(s@, p + dec_nat(m).len(), 58u8, 123u8);
        }
    }
    let (n, count_end) = match scan_nat(s, p, s.len() as u64) {
        Some(x) => x,
        None => {
            proof {
                assert forall|w: Val| #[trigger] encodes_at(s@, pos as int, w) && w is Table implies false by {
                    lemma_enc_entries_len(entries_of(w), entries_of(w).len() as int);
                    lemma_table_count_parts(s@, pos as int, class_of(w), entries_of(w), entries_of(w).len());
                }
            }
            return match scan_nat(s, p, 0xffff_ffff) {
                Some(_) => Err(DecodeError::BadLength),
                None => Err(DecodeError::BadNumber),
            };
        },
    };
    proof {
        assert forall|c: Option<Seq<u8>>, es: Seq<(Key, Val)>, m: nat| #[trigger]
            table_at(s@, pos as int, c, es, m) implies n == m && count_end == p + dec_nat(m).len()
            && tracks(s@, count_end + 2, es, Seq::empty(), 0) by {
            lemma_nat_unique(s@, p as int, n as nat, m);
            assert(es.take(0) =~= Seq::<(Key, Val)>::empty());
        }
        lemma_holds_byte2(s@, count_end as int, 58u8, 123u8);
    }
    if !(s.len() - count_end > 1 && s[count_end] == 58 && s[count_end + 1] == 123) {
        return Err(DecodeError::Malformed);
    }
    let body = count_end + 2;
    let mut k: u64 = 0;
    let mut cur: usize = body;
    proof {
        lemma_entries_wf(entries_of(table@), 0);
        assert(s@.subrange(body as int, body as int) =~= Seq::<u8>::empty());
        assert(enc_entries(entries_of(table@), 0) =~= Seq::<u8>::empty());
    }
    while k < n
        invariant
            pos < body <= cur <= s@.len(),
            k <= n,
            table@ is Table,
            class_of(table@) == cls,
            entries_of(table@).len() == k,
            keys_distinct(entries_of(table@)),
            entries_wf(entries_of(table@), k as int),
            holds_at(s@, body as int, enc_entries(entries_of(table@), k as int)),
            cur == body + enc_entries(entries_of(table@), k as int).len(),
            pos < s@.len() && (s@[pos as int] == 97 || s@[pos as int] == 79),
            forall|w: Val| #[trigger]
                encodes_at(s@, pos as int, w) && w is Table ==> table_at(
                    s@,
                    pos as int,
                    class_of(w),
                    entries_of(w),
                    entries_of(w).len(),
                ),
            forall|c: Option<Seq<u8>>, es: Seq<(Key, Val)>, m: nat| #[trigger]
                table_at(s@, pos as int, c, es, m) ==> m == n && c == cls && body == pos + table_head(
                    c,
                ).len() + dec_nat(m).len() + 2 && tracks(s@, body as int, es, entries_of(table@), k as int),
        decreases n - k,
    {
        let ghost es = entries_of(table@);
        proof {
            assert forall|c: Option<Seq<u8>>, we: Seq<(Key, Val)>, m: nat| #[trigger]
                table_at(s@, pos as int, c, we, m) implies {
                &&& k == we.len() ==> cur < s@.len() && s@[cur as int] == 125
                &&& k < we.len() ==> {
                    &&& we[k as int].0.wf()
                    &&& holds_at(s@, cur as int, enc_key(we[k as int].0))
                    &&& encodes_at(s@, cur + enc_key(we[k as int].0).len(), we[k as int].1)
                    &&& lookup(es, we[k as int].0) is None
                    &&& cur < s@.len() && s@[cur as int] != 125
                }
            } by {
                if k == we.len() {
                    lemma_last_entry(s@, pos as int, c, we, m, body as int, es);
                } else {
                    lemma_next_entry(s@, body as int, we, es, k as int);
                    let key = we[k as int].0;
                    assert(enc_key(key)[0] == 105 || enc_key(key)[0] == 115);
                }
            }
        }
        if cur < s.len() && s[cur] == 125 {
            return Err(DecodeError::BadLength);
        }
        let (key, key_end) = match decode_key(s, cur) {
            Ok(x) => x,
            Err(err) => {
                return Err(err);
            },
        };
        let (val, value_end) = match decode_value(s, key_end) {
            Ok(x) => x,
            Err(err) => {
                return Err(err);
            },
        };
        if table.get(&key).is_some() {
            return Err(DecodeError::DuplicateKey);
        }
        let ghost kv = key@;
        let ghost vv = val@;
        table.insert(key, val);
        proof {
            lemma_key_position(es, kv);
            let es2 = entries_of(table@);
            assert(es2 == es.push((kv, vv)));
            assert(es2.take(k as int) =~= es.take(k as int));
            lemma_enc_entries_take(es2, es, k as int);
            lemma_holds_split(s@, body as int, enc_entries(es, k as int), enc_key(kv));
            lemma_holds_split(s@, body as int, enc_entries(es, k as int) + enc_key(kv), enc_value(vv));
            lemma_entries_wf(es, k as int);
            lemma_entries_wf(es2, k + 1);
            assert forall|i: int, j: int| 0 <= i < j < es2.len() implies (#[trigger] es2[i]).0 != (
            #[trigger] es2[j]).0 by {
                if j == k {
                    assert(es[i].0 != kv);
                } else {
                    assert(es2[i] == es[i] && es2[j] == es[j]);
                }
            }
            assert forall|c: Option<Seq<u8>>, we: Seq<(Key, Val)>, m: nat| #[trigger]
                table_at(s@, pos as int, c, we, m) implies tracks(s@, body as int, we, es2, k + 1) by {
                assert(es2 =~= we.take(k + 1));
            }
        }
        cur = value_end;
        k = k + 1;
    }
    proof {
        let es = entries_of(table@);
        assert forall|c: Option<Seq<u8>>, we: Seq<(Key, Val)>, m: nat| #[trigger]
            table_at(s@, pos as int, c, we, m) implies (we.len() == n ==> es == we && cur < s@.len()
            && s@[cur as int] == 125) && (we.len() != n ==> cur < s@.len() && s@[cur as int] != 125) by {
            if we.len() == n {
                lemma_last_entry(s@, pos as int, c, we, m, body as int, es);
                assert(es =~= we);
            } else {
                lemma_next_entry(s@, body as int, we, es, k as int);
                let key = we[k as int].0;
                assert(enc_key(key)[0] == 105 || enc_key(key)[0] == 115);
            }
        }
        lemma_holds_byte(s@, cur as int, 125u8);
    }
    if !(cur < s.len() && s[cur] == 125) {
        return Err(DecodeError::BadLength);
    }
    proof {
        let es = entries_of(table@);
        assert(table@ == Val::Table(cls, es));
        lemma_table_count_parts(s@, pos as int, cls, es, es.len());
        assert(enc_value(table@) == enc_table_count(cls, es, es.len()));
        assert(table@.wf());
        assert forall|w: Val| #[trigger] encodes_at(s@, pos as int, w) && w is Table implies table@ == w by {
            assert(w == Val::Table(class_of(w), entries_of(w)));
            assert(table_at(s@, pos as int, class_of(w), entries_of(w), entries_of(w).len()));
        }
    }
    Ok((table, cur + 1))
}

/// The entries that the first `n` entries of `es` become in a table keyed by `K`: each key
/// converted, a later entry replacing an earlier one with the same converted key; none where
/// a key does not convert.
pub open spec fn keyed_entries<K: LuaNameType>(es: Seq<(Key, Val)>, n: int) -> Option<Seq<(Key, Val)>>
    decreases n,
{
    if n <= 0 || n > es.len() {
        Some(Seq::empty())
    } else {
        match keyed_entries::<K>(es, n - 1) {
            Some(p) => match K::convert_key(es[n - 1].0) {
                Some(k) => Some(table_insert(p, k, es[n - 1].1)),
                None => None,
            },
            None => None,
        }
    }
}

proof fn lemma_keyed_none<K: LuaNameType>(es: Seq<(Key, Val)>, k: int, n: int)
    requires
        1 <= k <= n <= es.len(),
        keyed_entries::<K>(es, k) is None,
    ensures
        keyed_entries::<K>(es, n) is None,
    decreases n - k,
{
    if k < n {
        lemma_keyed_none::<K>(es, k + 1, n);
    }
}

/// Reads a table at `pos` whose keys are of type `K`: the table as `decode_table` reads it,
/// with each key converted through `K`. Fails with `BadType` where a key does not convert.
pub fn decode_keyed_table<K: LuaNameType>(s: &[u8], pos: usize) -> (r: Result<(LuaTable, usize), DecodeError>)
    requires
        pos <= s@.len(),
    ensures
        r matches Ok((t, e)) ==> exists|w: Val| #[trigger]
            encodes_at(s@, pos as int, w) && w is Table && e == pos + enc_value(w).len() && t@
                == Val::Table(class_of(w), keyed_entries::<K>(entries_of(w), entries_of(w).len() as int)->Some_0)
                && keyed_entries::<K>(entries_of(w), entries_of(w).len() as int) is Some,
        forall|w: Val| #[trigger]
            encodes_at(s@, pos as int, w) && w is Table ==> match keyed_entries::<K>(
                entries_of(w),
                entries_of(w).len() as int,
            ) {
                Some(es) => r matches Ok((t, e)) && t@ == Val::Table(class_of(w), es) && e == pos
                    + enc_value(w).len(),
                None => r == Err::<(LuaTable, usize), DecodeError>(DecodeError::BadType),
            },
        (forall|w: Val| !(#[trigger] encodes_at(s@, pos as int, w) && w is Table)) ==> r is Err,
        forall|c: Option<Seq<u8>>, es: Seq<(Key, Val)>, m: nat| #[trigger]
            count_mismatch_at(s@, pos as int, c, es, m) ==> r == Err::<(LuaTable, usize), DecodeError>(
                DecodeError::BadLength,
            ),
        pos < s@.len() && s@[pos as int] != 97 && s@[pos as int] != 79 ==> r == Err::<
            (LuaTable, usize),
            DecodeError,
        >(DecodeError::UnexpectedPrefix),
{
    let (t, e) = match decode_table(s, pos) {
        Ok(x) => x,
        Err(err) => {
            return Err(err);
        },
    };
    let ghost w = t@;
    let ghost src = entries_of(w);
    let n = t.len();
    proof {
        assert(encodes_at(s@, pos as int, w));
        assert(w == Val::Table(class_of(w), src));
    }
    let (class, mut es) = t.into_parts();
    let mut out = match class {
        Some(c) => LuaTable::with_class(c),
        None => LuaTable::new(),
    };
    let mut i: usize = 0;
    proof {
        assert(src.subrange(0, n as int) =~= src);
        lemma_entries_model(es@, es@.len() as int);
        assert(keyed_entries::<K>(src, 0) == Some(Seq::<(Key, Val)>::empty()));
    }
    while i < n
        invariant
            i <= n == src.len(),
            encodes_at(s@, pos as int, w),
            w == Val::Table(class_of(w), src),
            e == pos + enc_value(w).len(),
            forall|w2: Val| #[trigger] encodes_at(s@, pos as int, w2) && w2 is Table ==> w2 == w,
            forall|c: Option<Seq<u8>>, es2: Seq<(Key, Val)>, m: nat|
                !(#[trigger] count_mismatch_at(s@, pos as int, c, es2, m)),
            pos < s@.len() && (s@[pos as int] == 97 || s@[pos as int] == 79),
            es@.len() == n - i,
            entries_model(es@, es@.len() as int) == src.subrange(i as int, n as int),
            keyed_entries::<K>(src, i as int) == Some(entries_of(out@)),
            class_of(out@) == class_of(w),
            out@ is Table,
        decreases n - i,
    {
        let ghost before = es@;
        proof {
            lemma_entries_model(before, before.len() as int);
            assert(src.subrange(i as int, n as int)[0] == src[i as int]);
        }
        let (k, v) = es.remove(0);
        proof {
            lemma_entries_model(es@, es@.len() as int);
            assert(entries_model(es@, es@.len() as int) =~= src.subrange(i + 1, n as int)) by {
                assert forall|j: int| 0 <= j < es@.len() implies #[trigger] entries_model(
                    es@,
                    es@.len() as int,
                )[j] == src.subrange(i + 1, n as int)[j] by {
                    assert(es@[j] == before[j + 1]);
                    assert(entries_model(before, before.len() as int)[j + 1] == src.subrange(
                        i as int,
                        n as int,
                    )[j + 1]);
                }
            }
            assert((k@, v@) == src[i as int]);
        }
        let nk: LuaKey = match k {
            LuaKey::Integer(x) => match K::try_from_integer(x) {
                Ok(kk) => kk.into_key(),
                Err(_) => {
                    proof {
                        lemma_keyed_none::<K>(src, i + 1, n as int);
                    }
                    return Err(DecodeError::BadType);
                },
            },
            LuaKey::String(b) => match K::try_from_string(b) {
                Ok(kk) => kk.into_key(),
                Err(_) => {
                    proof {
                        lemma_keyed_none::<K>(src, i + 1, n as int);
                    }
                    return Err(DecodeError::BadType);
                },
            },
        };
        out.insert(nk, v);
        i = i + 1;
    }
    proof {
        assert(out@ == Val::Table(class_of(out@), entries_of(out@)));
    }
    Ok((out, e))
}

/// The value whose wire text is exactly `s`.
pub fn decode(s: &[u8]) -> (r: Result<LuaValue, DecodeError>)
    ensures
        r matches Ok(v) ==> s@ == enc_value(v@) && v@.wf(),
        forall|w: Val| w.wf() && s@ == #[trigger] enc_value(w) ==> (r matches Ok(v) && v@ == w),
        forall|c: Option<Seq<u8>>, es: Seq<(Key, Val)>, m: nat| #[trigger]
            count_mismatch_at(s@, 0, c, es, m) ==> r == Err::<LuaValue, DecodeError>(DecodeError::BadLength),
{
    match decode_value(s, 0) {
        Ok((v, e)) => {
            if e == s.len() {
                assert(s@.subrange(0, e as int) =~= s@);
                proof {
                    assert forall|w: Val| w.wf() && s@ == #[trigger] enc_value(w) implies v@ == w by {
                        assert(s@.subrange(0, s@.len() as int) =~= s@);
                        assert(encodes_at(s@, 0, w));
                    }
                }
                Ok(v)
            } else {
                proof {
                    assert forall|w: Val| w.wf() && s@ == #[trigger] enc_value(w) implies false by {
                        assert(s@.subrange(0, s@.len() as int) =~= s@);
                        assert(encodes_at(s@, 0, w));
                    }
                }
                Err(DecodeError::Malformed)
            }
        },
        Err(err) => {
            proof {
                assert forall|w: Val| w.wf() && s@ == #[trigger] enc_value(w) implies false by {
                    assert(s@.subrange(0, s@.len() as int) =~= s@);
                    assert(encodes_at(s@, 0, w));
                }
            }
            Err(err)
        },
    }
}

proof fn lemma_nat_unique(s: Seq<u8>, p: int, a: nat, b: nat)
    requires
        holds_at(s, p, dec_nat(a)),
        digits_end_at(s, p + dec_nat(a).len()),
        holds_at(s, p, dec_nat(b)),
        digits_end_at(s, p + dec_nat(b).len()),
    ensures
        a == b,
{
    lemma_dec_nat(a);
    lemma_dec_nat(b);
    let da = dec_nat(a);
    let db = dec_nat(b);
    if da.len() < db.len() {
        assert(s[p + da.len()] == db[da.len() as int]);
        assert(is_digit(db[da.len() as int]));
    } else if db.len() < da.len() {
        assert(s[p + db.len()] == da[db.len() as int]);
        assert(is_digit(da[db.len() as int]));
    }
    assert(da == s.subrange(p, p + da.len()));
}

proof fn lemma_quoted_unique(s: Seq<u8>, p: int, b1: Seq<u8>, b2: Seq<u8>)
    requires
        holds_at(s, p, quoted(b1)),
        holds_at(s, p, quoted(b2)),
    ensures
        b1 == b2,
{
    lemma_quoted_at(s, p, b1);
    lemma_quoted_at(s, p, b2);
    let l1 = escape(b1).len();
    let l2 = escape(b2).len();
    lemma_holds_byte2(s, p + dec_nat(l1).len(), 58u8, 34u8);
    lemma_holds_byte2(s, p + dec_nat(l2).len(), 58u8, 34u8);
    lemma_nat_unique(s, p, l1, l2);
    lemma_unescape_escape(b1);
    lemma_unescape_escape(b2);
}

proof fn lemma_int_unique(s: Seq<u8>, p: int, i: int, j: int)
    requires
        holds_at(s, p, enc_int(i)),
        holds_at(s, p, enc_int(j)),
    ensures
        i == j,
{
    lemma_holds_split(s, p, seq![105u8, 58u8] + dec_int(i), seq![59u8]);
    lemma_holds_split(s, p, seq![105u8, 58u8], dec_int(i));
    lemma_holds_split(s, p, seq![105u8, 58u8] + dec_int(j), seq![59u8]);
    lemma_holds_split(s, p, seq![105u8, 58u8], dec_int(j));
    lemma_holds_byte(s, p + 2 + dec_int(i).len(), 59u8);
    lemma_holds_byte(s, p + 2 + dec_int(j).len(), 59u8);
    if i < 0 {
        lemma_holds_split(s, p + 2, seq![45u8], dec_nat((-i) as nat));
        lemma_holds_byte(s, p + 2, 45u8);
    } else {
        lemma_dec_nat(i as nat);
        assert(is_digit(dec_nat(i as nat)[0]));
        assert(s[p + 2] == dec_int(i)[0]);
    }
    if j < 0 {
        lemma_holds_split(s, p + 2, seq![45u8], dec_nat((-j) as nat));
        lemma_holds_byte(s, p + 2, 45u8);
    } else {
        lemma_dec_nat(j as nat);
        assert(is_digit(dec_nat(j as nat)[0]));
        assert(s[p + 2] == dec_int(j)[0]);
    }
    if i < 0 && j < 0 {
        lemma_nat_unique(s, p + 3, (-i) as nat, (-j) as nat);
    } else if i >= 0 && j >= 0 {
        lemma_nat_unique(s, p + 2, i as nat, j as nat);
    }
}

proof fn lemma_key_unique(s: Seq<u8>, p: int, k1: Key, k2: Key)
    requires
        holds_at(s, p, enc_key(k1)),
        holds_at(s, p, enc_key(k2)),
    ensures
        k1 == k2,
{
    assert(s[p] == enc_key(k1)[0]);
    assert(s[p] == enc_key(k2)[0]);
    match (k1, k2) {
        (Key::Int(i), Key::Int(j)) => lemma_int_unique(s, p, i, j),
        (Key::Str(a), Key::Str(b)) => {
            lemma_holds_split(s, p, seq![115u8, 58u8] + quoted(a), seq![59u8]);
            lemma_holds_split(s, p, seq![115u8, 58u8], quoted(a));
            lemma_holds_split(s, p, seq![115u8, 58u8] + quoted(b), seq![59u8]);
            lemma_holds_split(s, p, seq![115u8, 58u8], quoted(b));
            lemma_quoted_unique(s, p + 2, a, b);
        },
        _ => {},
    }
}

proof fn lemma_entries_unique(s: Seq<u8>, q: int, es1: Seq<(Key, Val)>, es2: Seq<(Key, Val)>, n: int)
    requires
        0 <= n <= es1.len(),
        n <= es2.len(),
        holds_at(s, q, enc_entries(es1, n)),
        holds_at(s, q, enc_entries(es2, n)),
        forall|i: int| 0 <= i < n ==> (#[trigger] es1[i]).1.wf(),
        forall|i: int| 0 <= i < n ==> (#[trigger] es2[i]).1.wf(),
    ensures
        es1.take(n) == es2.take(n),
    decreases es1, n,
{
    if n > 0 {
        lemma_enc_entries_prefix(s, q, es1, n - 1, n);
        lemma_enc_entries_prefix(s, q, es2, n - 1, n);
        lemma_entries_unique(s, q, es1, es2, n - 1);
        lemma_enc_entries_take(es1, es2, n - 1);
        let e = enc_entries(es1, n - 1);
        let (k1, v1) = es1[n - 1];
        let (k2, v2) = es2[n - 1];
        lemma_holds_split(s, q, e + enc_key(k1), enc_value(v1));
        lemma_holds_split(s, q, e, enc_key(k1));
        lemma_holds_split(s, q, e + enc_key(k2), enc_value(v2));
        lemma_holds_split(s, q, e, enc_key(k2));
        lemma_key_unique(s, q + e.len(), k1, k2);
        assert(es1[n - 1].1.wf() && es2[n - 1].1.wf());
        lemma_value_unique(s, q + e.len() + enc_key(k1).len(), v1, v2);
        assert(es1.take(n) =~= es2.take(n)) by {
            assert forall|i: int| 0 <= i < n implies #[trigger] es1.take(n)[i] == es2.take(n)[i] by {
                if i < n - 1 {
                    assert(es1.take(n - 1)[i] == es2.take(n - 1)[i]);
                }
            }
        }
    }
}

/// Two valid values whose wire texts stand at the same offset are the same value.
pub proof fn lemma_value_unique(s: Seq<u8>, p: int, v: Val, w: Val)
    requires
        encodes_at(s, p, v),
        encodes_at(s, p, w),
    ensures
        v == w,
    decreases v, 0int,
{
    lemma_tag(s, p, v);
    lemma_tag(s, p, w);
    match (v, w) {
        (Val::Str(a), Val::Str(b)) => {
            lemma_holds_split(s, p, seq![115u8, 58u8] + quoted(a), seq![59u8]);
            lemma_holds_split(s, p, seq![115u8, 58u8], quoted(a));
            lemma_holds_split(s, p, seq![115u8, 58u8] + quoted(b), seq![59u8]);
            lemma_holds_split(s, p, seq![115u8, 58u8], quoted(b));
            lemma_quoted_unique(s, p + 2, a, b);
        },
        (Val::Int(i), Val::Int(j)) => lemma_int_unique(s, p, i, j),
        (Val::Float(a), Val::Float(b)) => {
            lemma_holds_split(s, p, seq![100u8, 58u8] + a, seq![59u8]);
            lemma_holds_split(s, p, seq![100u8, 58u8], a);
            lemma_holds_split(s, p, seq![100u8, 58u8] + b, seq![59u8]);
            lemma_holds_split(s, p, seq![100u8, 58u8], b);
            lemma_holds_byte(s, p + 2 + a.len(), 59u8);
            lemma_holds_byte(s, p + 2 + b.len(), 59u8);
            lemma_token_no_semicolon(a);
            lemma_token_no_semicolon(b);
            if a.len() < b.len() {
                assert(s[p + 2 + a.len()] == b[a.len() as int]);
            } else if b.len() < a.len() {
                assert(s[p + 2 + b.len()] == a[b.len() as int]);
            }
            assert(a == s.subrange(p + 2, p + 2 + a.len()));
        },
        (Val::Bool(a), Val::Bool(b)) => {
            assert(s[p + 2] == enc_value(v)[2]);
            assert(s[p + 2] == enc_value(w)[2]);
        },
        (Val::Table(c1, es1), Val::Table(c2, es2)) => {
            lemma_table_parts(s, p, c1, es1);
            lemma_table_parts(s, p, c2, es2);
            if c1 is Some && c2 is Some {
                lemma_head_parts(s, p, c1->Some_0);
                lemma_head_parts(s, p, c2->Some_0);
                lemma_quoted_unique(s, p + 2, c1->Some_0, c2->Some_0);
            }
            let h = table_head(c1);
            let d1 = dec_nat(es1.len());
            let d2 = dec_nat(es2.len());
            lemma_holds_byte2(s, p + h.len() + d1.len(), 58u8, 123u8);
            lemma_holds_byte2(s, p + h.len() + d2.len(), 58u8, 123u8);
            lemma_nat_unique(s, p + h.len(), es1.len(), es2.len());
            lemma_entries_wf(es1, es1.len() as int);
            lemma_entries_wf(es2, es2.len() as int);
            lemma_entries_unique(s, p + h.len() + d1.len() + 2, es1, es2, es1.len() as int);
            assert(es1 =~= es1.take(es1.len() as int));
            assert(es2 =~= es2.take(es2.len() as int));
        },
        _ => {},
    }
}

/// The wire text of a valid value determines it: where two valid values have the same text
/// they are equal. With the contracts of `encode` and `decode`, decoding what `encode` gives
/// returns the value that was encoded.
pub proof fn lemma_round_trip(v: Val, w: Val)
    requires
        v.wf(),
        w.wf(),
        enc_value(v) == enc_value(w),
    ensures
        v == w,
{
    let s = enc_value(v);
    assert(s.subrange(0, s.len() as int) =~= s);
    lemma_value_unique(s, 0, v, w);
}

} // verus!
