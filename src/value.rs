//! The values exchanged with the interpreter and their mathematical model.
use vstd::prelude::*;
use vstd::string::StringSliceAdditionalSpecFns;
use crate::number::{dec_nat, dec_int, holds_at, digits_end_at, is_digit, lemma_dec_nat, scan_nat, write_int};

verus! {

/// The model of a table key.
pub enum Key {
    Int(int),
    Str(Seq<u8>),
}

/// The model of a value: strings are byte sequences, a float is its wire text, and a table
/// is its optional class name with its entries in order.
pub enum Val {
    Str(Seq<u8>),
    Int(int),
    Float(Seq<u8>),
    Bool(bool),
    Null,
    Table(Option<Seq<u8>>, Seq<(Key, Val)>),
}

pub open spec fn is_i32(i: int) -> bool {
    i32::MIN <= i <= i32::MAX
}

/// At least one digit from offset `a` up to `b`.
pub open spec fn digit_run(t: Seq<u8>, a: int, b: int) -> bool {
    0 <= a < b <= t.len() && forall|i: int| a <= i < b ==> is_digit(#[trigger] t[i])
}

/// The literal of a finite float: an optional minus, digits, and optionally a dot and digits.
pub open spec fn float_literal(t: Seq<u8>) -> bool {
    let a: int = if t.len() > 0 && t[0] == 45 {
        1
    } else {
        0
    };
    ||| digit_run(t, a, t.len() as int)
    ||| exists|p: int| a < p < t.len() && t[p] == 46 && digit_run(t, a, p) && digit_run(t, p + 1, t.len() as int)
}

pub open spec fn inf_token(t: Seq<u8>) -> bool {
    t == seq![105u8, 110, 102] || t == seq![73u8, 78, 70]
}

pub open spec fn neg_inf_token(t: Seq<u8>) -> bool {
    t == seq![45u8, 105, 110, 102] || t == seq![45u8, 73, 78, 70]
}

pub open spec fn nan_token(t: Seq<u8>) -> bool {
    t == seq![110u8, 97, 110] || t == seq![45u8, 110, 97, 110] || t == seq![78u8, 65, 78]
}

/// The wire texts of a float: a literal, or `inf`, `-inf`, `nan`, `-nan`, `INF`, `-INF`, `NAN`.
pub open spec fn float_token(t: Seq<u8>) -> bool {
    float_literal(t) || inf_token(t) || neg_inf_token(t) || nan_token(t)
}

impl Key {
    pub open spec fn wf(self) -> bool {
        match self {
            Key::Int(i) => is_i32(i),
            Key::Str(_) => true,
        }
    }
}

/// No two entries share a key.
pub open spec fn keys_distinct(es: Seq<(Key, Val)>) -> bool {
    forall|i: int, j: int| 0 <= i < j < es.len() ==> (#[trigger] es[i]).0 != (#[trigger] es[j]).0
}

impl Val {
    /// Integers fit in 32 bits, floats are wire texts of floats, and each table has
    /// distinct keys; all of it at every depth.
    pub open spec fn wf(self) -> bool
        decreases self, 0int,
    {
        match self {
            Val::Int(i) => is_i32(i),
            Val::Float(t) => float_token(t),
            Val::Table(_, es) => keys_distinct(es) && entries_wf(es, es.len() as int),
            _ => true,
        }
    }
}

/// The first `n` entries have valid keys and valid values.
pub open spec fn entries_wf(es: Seq<(Key, Val)>, n: int) -> bool
    decreases es, n,
{
    if n <= 0 || n > es.len() {
        true
    } else {
        entries_wf(es, n - 1) && es[n - 1].0.wf() && es[n - 1].1.wf()
    }
}

/// A byte string.
#[derive(Debug)]
pub struct LuaString(Vec<u8>);

/// A 32-bit signed integer.
#[derive(PartialEq, Eq, Structural, Clone, Copy, Debug, Hash)]
pub struct LuaInteger(i32);

/// A boolean.
#[derive(PartialEq, Eq, Structural, Clone, Copy, Debug, Hash)]
pub struct LuaBool(bool);

/// The null value.
#[derive(PartialEq, Eq, Structural, Clone, Copy, Debug, Hash)]
pub struct LuaNull;

/// A float, held as its wire text.
#[derive(Debug)]
pub struct LuaFloat(Vec<u8>);

/// The handle of a chunk loaded into the interpreter; an integer on the wire.
#[derive(PartialEq, Eq, Structural, Clone, Copy, Debug, Hash)]
pub struct LuaChunk(i32);

/// A table key.
#[derive(Debug)]
pub enum LuaKey {
    Integer(LuaInteger),
    String(LuaString),
}

/// A value.
#[derive(Debug)]
pub enum LuaValue {
    String(LuaString),
    Integer(LuaInteger),
    Float(LuaFloat),
    Bool(LuaBool),
    Null(LuaNull),
    Table(LuaTable),
}

/// A table: an optional class name and entries with distinct keys.
#[derive(Debug)]
pub struct LuaTable {
    class: Option<LuaString>,
    entries: Vec<(LuaKey, LuaValue)>,
}

impl View for LuaString {
    type V = Seq<u8>;

    closed spec fn view(&self) -> Seq<u8> {
        self.0@
    }
}

impl View for LuaFloat {
    type V = Seq<u8>;

    closed spec fn view(&self) -> Seq<u8> {
        self.0@
    }
}

impl View for LuaInteger {
    type V = int;

    open spec fn view(&self) -> int {
        self.spec_raw() as int
    }
}

impl LuaInteger {
    pub closed spec fn spec_raw(&self) -> i32 {
        self.0
    }
}

impl View for LuaBool {
    type V = bool;

    closed spec fn view(&self) -> bool {
        self.0
    }
}

impl View for LuaChunk {
    type V = int;

    closed spec fn view(&self) -> int {
        self.0 as int
    }
}

impl View for LuaKey {
    type V = Key;

    open spec fn view(&self) -> Key {
        match self {
            LuaKey::Integer(i) => Key::Int(i@),
            LuaKey::String(s) => Key::Str(s@),
        }
    }
}

pub open spec fn value_model(v: LuaValue) -> Val
    decreases v, 0int,
{
    match v {
        LuaValue::String(s) => Val::Str(s@),
        LuaValue::Integer(i) => Val::Int(i@),
        LuaValue::Float(f) => Val::Float(f@),
        LuaValue::Bool(b) => Val::Bool(b@),
        LuaValue::Null(_) => Val::Null,
        LuaValue::Table(t) => table_model(t),
    }
}

pub closed spec fn table_model(t: LuaTable) -> Val
    decreases t, 0int,
{
    Val::Table(
        match t.class {
            Some(c) => Some(c@),
            None => None,
        },
        entries_model(t.entries@, t.entries@.len() as int),
    )
}

/// The model of the first `n` entries.
pub open spec fn entries_model(es: Seq<(LuaKey, LuaValue)>, n: int) -> Seq<(Key, Val)>
    decreases es, n,
{
    if n <= 0 || n > es.len() {
        Seq::empty()
    } else {
        entries_model(es, n - 1).push((es[n - 1].0@, value_model(es[n - 1].1)))
    }
}

/// The model of a table is a table.
pub proof fn lemma_table_view(t: LuaTable)
    ensures
        t@ is Table,
{
    reveal(table_model);
}

impl View for LuaValue {
    type V = Val;

    open spec fn view(&self) -> Val {
        value_model(*self)
    }
}

impl View for LuaTable {
    type V = Val;

    open spec fn view(&self) -> Val {
        table_model(*self)
    }
}

/// The model of the first `n` entries is as long as `n` and holds each entry's model.
pub proof fn lemma_entries_model(es: Seq<(LuaKey, LuaValue)>, n: int)
    requires
        0 <= n <= es.len(),
    ensures
        entries_model(es, n).len() == n,
        forall|i: int|
            0 <= i < n ==> #[trigger] entries_model(es, n)[i] == (es[i].0@, value_model(es[i].1)),
    decreases n,
{
    if n > 0 {
        lemma_entries_model(es, n - 1);
    }
}

/// `entries_wf` says that every one of the first `n` entries is valid.
pub proof fn lemma_entries_wf(es: Seq<(Key, Val)>, n: int)
    requires
        0 <= n <= es.len(),
    ensures
        entries_wf(es, n) <==> forall|i: int| 0 <= i < n ==> (#[trigger] es[i]).0.wf() && es[i].1.wf(),
    decreases n,
{
    if n > 0 {
        lemma_entries_wf(es, n - 1);
    }
}

impl LuaString {
    /// The UTF-8 bytes of `s`.
    pub fn new(s: &str) -> (r: LuaString)
        ensures
            r@ == s.spec_bytes(),
    {
        LuaString(vstd::slice::slice_to_vec(s.as_bytes()))
    }

    pub fn from_bytes(b: Vec<u8>) -> (r: LuaString)
        ensures
            r@ == b@,
    {
        LuaString(b)
    }

    pub fn as_raw(&self) -> (r: &[u8])
        ensures
            r@ == self@,
    {
        self.0.as_slice()
    }

    pub fn to_raw(self) -> (r: Vec<u8>)
        ensures
            r@ == self@,
    {
        self.0
    }

    pub fn len(&self) -> (r: usize)
        ensures
            r == self@.len(),
    {
        self.0.len()
    }

    pub fn copy(&self) -> (r: LuaString)
        ensures
            r@ == self@,
    {
        LuaString(self.0.clone())
    }

    /// Whether both hold the same bytes.
    pub fn same(&self, o: &LuaString) -> (r: bool)
        ensures
            r == (self@ == o@),
    {
        if self.0.len() != o.0.len() {
            return false;
        }
        let mut i: usize = 0;
        while i < self.0.len()
            invariant
                self.0@.len() == o.0@.len(),
                i <= self.0@.len(),
                forall|j: int| 0 <= j < i ==> self.0@[j] == o.0@[j],
            decreases self.0@.len() - i,
        {
            if self.0[i] != o.0[i] {
                return false;
            }
            i = i + 1;
        }
        assert(self.0@ =~= o.0@);
        true
    }
}

impl PartialEq for LuaString {
    fn eq(&self, o: &LuaString) -> (r: bool) {
        self.same(o)
    }
}

impl vstd::std_specs::cmp::PartialEqSpecImpl for LuaString {
    open spec fn obeys_eq_spec() -> bool {
        true
    }

    open spec fn eq_spec(&self, o: &LuaString) -> bool {
        self@ == o@
    }
}

impl LuaInteger {
    pub fn new(i: i32) -> (r: LuaInteger)
        ensures
            r@ == i,
    {
        LuaInteger(i)
    }

    pub fn to_taw(self) -> (r: i32)
        ensures
            r == self@,
    {
        self.0
    }

    pub fn to_raw(self) -> (r: i32)
        ensures
            r == self@,
    {
        self.0
    }

    pub fn as_raw(&self) -> (r: &i32)
        ensures
            *r == self@,
    {
        &self.0
    }

    /// The chunk that this integer names.
    pub fn to_chunk(self) -> (r: LuaChunk)
        ensures
            r@ == self@,
    {
        LuaChunk(self.0)
    }
}

impl LuaBool {
    pub fn new(b: bool) -> (r: LuaBool)
        ensures
            r@ == b,
    {
        LuaBool(b)
    }

    pub fn to_raw(self) -> (r: bool)
        ensures
            r == self@,
    {
        self.0
    }

    pub fn as_raw(&self) -> (r: &bool)
        ensures
            *r == self@,
    {
        &self.0
    }
}

impl LuaNull {
    pub fn new() -> LuaNull {
        LuaNull
    }

    pub fn to_raw(self) {
    }

    pub fn as_raw(&self) -> &() {
        &()
    }
}

impl LuaChunk {
    pub fn new(src: &LuaInteger) -> (r: LuaChunk)
        ensures
            r@ == src@,
    {
        LuaChunk(src.0)
    }

    pub fn to_raw(self) -> (r: i32)
        ensures
            r == self@,
    {
        self.0
    }

    pub fn as_raw(&self) -> (r: &i32)
        ensures
            *r == self@,
    {
        &self.0
    }

    /// The integer that stands for this chunk on the wire.
    pub fn to_integer(self) -> (r: LuaInteger)
        ensures
            r@ == self@,
    {
        LuaInteger(self.0)
    }
}

impl LuaFloat {
    #[verifier::type_invariant]
    spec fn inv(&self) -> bool {
        float_token(self.0@)
    }

    /// The float whose wire text is `t`, where `t` is such a text.
    pub fn from_text(t: &[u8]) -> (r: Option<LuaFloat>)
        ensures
            r matches Some(f) ==> f@ == t@,
            r is Some <==> float_token(t@),
    {
        let n = t.len();
        let ok = (n == 3 && ((t[0] == 105 && t[1] == 110 && t[2] == 102) || (t[0] == 73 && t[1]
            == 78 && t[2] == 70) || (t[0] == 110 && t[1] == 97 && t[2] == 110) || (t[0] == 78
            && t[1] == 65 && t[2] == 78))) || (n == 4 && t[0] == 45 && ((t[1] == 105 && t[2]
            == 110 && t[3] == 102) || (t[1] == 73 && t[2] == 78 && t[3] == 70) || (t[1] == 110
            && t[2] == 97 && t[3] == 110)));
        proof {
            lemma_seq3(t@, 105, 110, 102);
            lemma_seq3(t@, 73, 78, 70);
            lemma_seq3(t@, 110, 97, 110);
            lemma_seq3(t@, 78, 65, 78);
            lemma_seq4(t@, 45, 105, 110, 102);
            lemma_seq4(t@, 45, 73, 78, 70);
            lemma_seq4(t@, 45, 110, 97, 110);
        }
        if ok {
            return Some(LuaFloat(vstd::slice::slice_to_vec(t)));
        }
        if !is_float_literal(t) {
            return None;
        }
        Some(LuaFloat(vstd::slice::slice_to_vec(t)))
    }

    pub fn infinity() -> (r: LuaFloat)
        ensures
            r@ == seq![105u8, 110, 102],
    {
        let v: Vec<u8> = vec![105u8, 110, 102];
        assert(v@ =~= seq![105u8, 110, 102]);
        LuaFloat(v)
    }

    pub fn neg_infinity() -> (r: LuaFloat)
        ensures
            r@ == seq![45u8, 105, 110, 102],
    {
        let v: Vec<u8> = vec![45u8, 105, 110, 102];
        assert(v@ =~= seq![45u8, 105, 110, 102]);
        LuaFloat(v)
    }

    pub fn nan() -> (r: LuaFloat)
        ensures
            r@ == seq![110u8, 97, 110],
    {
        let v: Vec<u8> = vec![110u8, 97, 110];
        assert(v@ =~= seq![110u8, 97, 110]);
        LuaFloat(v)
    }

    /// The wire text.
    pub fn as_text(&self) -> (r: &[u8])
        ensures
            r@ == self@,
            float_token(r@),
    {
        proof {
            use_type_invariant(self);
        }
        self.0.as_slice()
    }

    pub fn copy(&self) -> (r: LuaFloat)
        ensures
            r@ == self@,
    {
        proof {
            use_type_invariant(self);
        }
        LuaFloat(self.0.clone())
    }
}

proof fn lemma_seq3(t: Seq<u8>, a: u8, b: u8, c: u8)
    ensures
        (t == seq![a, b, c]) <==> (t.len() == 3 && t[0] == a && t[1] == b && t[2] == c),
{
    if t.len() == 3 && t[0] == a && t[1] == b && t[2] == c {
        assert(t =~= seq![a, b, c]);
    }
}

proof fn lemma_seq4(t: Seq<u8>, a: u8, b: u8, c: u8, d: u8)
    ensures
        (t == seq![a, b, c, d]) <==> (t.len() == 4 && t[0] == a && t[1] == b && t[2] == c && t[3]
            == d),
{
    if t.len() == 4 && t[0] == a && t[1] == b && t[2] == c && t[3] == d {
        assert(t =~= seq![a, b, c, d]);
    }
}

/// Whether `t` is the literal of a finite float.
fn is_float_literal(t: &[u8]) -> (r: bool)
    ensures
        r == float_literal(t@),
{
    let n = t.len();
    let a: usize = if n > 0 && t[0] == 45 {
        1
    } else {
        0
    };
    let mut i: usize = a;
    while i < n && t[i] >= 48 && t[i] <= 57
        invariant
            a <= i <= n == t@.len(),
            forall|j: int| a <= j < i ==> is_digit(#[trigger] t@[j]),
        decreases n - i,
    {
        i = i + 1;
    }
    if i == a {
        proof {
            if a < n {
                assert(!is_digit(t@[a as int]));
                assert(!digit_run(t@, a as int, n as int));
            }
        }
        return false;
    }
    if i == n {
        return true;
    }
    if t[i] != 46 || i + 1 == n {
        proof {
            assert(!digit_run(t@, a as int, n as int)) by {
                assert(!is_digit(t@[i as int]));
            }
            assert forall|p: int|
                a < p < t@.len() && t@[p] == 46 && digit_run(t@, a as int, p) implies !digit_run(
                t@,
                p + 1,
                t@.len() as int,
            ) by {
                if p < i {
                    assert(is_digit(t@[p]));
                }
                if p > i {
                    assert(is_digit(t@[i as int]));
                }
            }
        }
        return false;
    }
    let mut k: usize = i + 1;
    while k < n && t[k] >= 48 && t[k] <= 57
        invariant
            i + 1 <= k <= n == t@.len(),
            forall|j: int| i + 1 <= j < k ==> is_digit(#[trigger] t@[j]),
        decreases n - k,
    {
        k = k + 1;
    }
    proof {
        assert(!digit_run(t@, a as int, n as int)) by {
            assert(!is_digit(t@[i as int]));
        }
        if k < n {
            assert forall|p: int|
                a < p < t@.len() && t@[p] == 46 && digit_run(t@, a as int, p) implies !digit_run(
                t@,
                p + 1,
                t@.len() as int,
            ) by {
                if p < i {
                    assert(is_digit(t@[p]));
                }
                if p > i {
                    assert(is_digit(t@[i as int]));
                }
                assert(!is_digit(t@[k as int]));
            }
        } else {
            assert(digit_run(t@, a as int, i as int));
        }
    }
    k == n
}

/// Where the last entry with key `k` stands, or -1.
pub open spec fn key_position(es: Seq<(Key, Val)>, k: Key) -> int
    decreases es.len(),
{
    if es.len() == 0 {
        -1
    } else if es.last().0 == k {
        es.len() - 1
    } else {
        key_position(es.drop_last(), k)
    }
}

/// The value under key `k`.
pub open spec fn lookup(es: Seq<(Key, Val)>, k: Key) -> Option<Val> {
    let p = key_position(es, k);
    if p >= 0 {
        Some(es[p].1)
    } else {
        None
    }
}

/// The entries after `k` is set to `v`: in place where `k` is present, else at the end.
pub open spec fn table_insert(es: Seq<(Key, Val)>, k: Key, v: Val) -> Seq<(Key, Val)> {
    let p = key_position(es, k);
    if p >= 0 {
        es.update(p, (k, v))
    } else {
        es.push((k, v))
    }
}

/// The entries of a table model.
pub open spec fn entries_of(v: Val) -> Seq<(Key, Val)> {
    match v {
        Val::Table(_, es) => es,
        _ => Seq::empty(),
    }
}

/// The class name of a table model.
pub open spec fn class_of(v: Val) -> Option<Seq<u8>> {
    match v {
        Val::Table(c, _) => c,
        _ => None,
    }
}

pub proof fn lemma_key_position(es: Seq<(Key, Val)>, k: Key)
    ensures
        -1 <= key_position(es, k) < es.len(),
        key_position(es, k) >= 0 ==> es[key_position(es, k)].0 == k,
        key_position(es, k) == -1 <==> forall|i: int| 0 <= i < es.len() ==> (#[trigger] es[i]).0 != k,
        forall|i: int| key_position(es, k) < i < es.len() ==> (#[trigger] es[i]).0 != k,
    decreases es.len(),
{
    if es.len() > 0 {
        lemma_key_position(es.drop_last(), k);
        assert forall|i: int| 0 <= i < es.len() - 1 implies (#[trigger] es[i]).0 == es.drop_last()[i].0 by {}
        if es.last().0 != k {
            assert(es[es.len() - 1].0 != k);
        }
    }
}

/// With distinct keys, the key of entry `p` stands at `p`.
pub proof fn lemma_key_position_distinct(es: Seq<(Key, Val)>, p: int)
    requires
        keys_distinct(es),
        0 <= p < es.len(),
    ensures
        key_position(es, es[p].0) == p,
{
    lemma_key_position(es, es[p].0);
    let q = key_position(es, es[p].0);
    if q != p {
        assert(q > p);
        assert(es[p].0 == es[q].0);
    }
}

/// Taking out one key leaves the value under another key as it was.
pub proof fn lemma_remove_other(es: Seq<(Key, Val)>, k: Key, k2: Key)
    requires
        keys_distinct(es),
        k != k2,
        key_position(es, k) >= 0,
    ensures
        lookup(es.remove(key_position(es, k)), k2) == lookup(es, k2),
{
    let p = key_position(es, k);
    let es2 = es.remove(p);
    lemma_key_position(es, k);
    lemma_key_position(es, k2);
    lemma_key_position(es2, k2);
    assert(keys_distinct(es2)) by {
        assert forall|i: int, j: int| 0 <= i < j < es2.len() implies (#[trigger] es2[i]).0 != (
        #[trigger] es2[j]).0 by {
            let i2 = if i < p { i } else { i + 1 };
            let j2 = if j < p { j } else { j + 1 };
            assert(es2[i] == es[i2] && es2[j] == es[j2]);
        }
    }
    let q = key_position(es, k2);
    if q >= 0 {
        let q2 = if q < p { q } else { q - 1 };
        assert(es2[q2] == es[q]);
        lemma_key_position_distinct(es2, q2);
    } else {
        assert forall|i: int| 0 <= i < es2.len() implies (#[trigger] es2[i]).0 != k2 by {
            let i2 = if i < p { i } else { i + 1 };
            assert(es2[i] == es[i2]);
        }
    }
}

/// Keeps a table's invariant through `table_insert`.
proof fn lemma_table_insert_wf(es: Seq<(Key, Val)>, k: Key, v: Val)
    requires
        keys_distinct(es),
        entries_wf(es, es.len() as int),
        k.wf(),
        v.wf(),
    ensures
        keys_distinct(table_insert(es, k, v)),
        entries_wf(table_insert(es, k, v), table_insert(es, k, v).len() as int),
{
    lemma_key_position(es, k);
    lemma_entries_wf(es, es.len() as int);
    let r = table_insert(es, k, v);
    lemma_entries_wf(r, r.len() as int);
    assert forall|i: int, j: int| 0 <= i < j < r.len() implies (#[trigger] r[i]).0 != (
    #[trigger] r[j]).0 by {
        if key_position(es, k) < 0 && j == es.len() {
            assert(es[i].0 != k);
        }
    }
}

fn find_key(es: &Vec<(LuaKey, LuaValue)>, k: &LuaKey) -> (r: Option<usize>)
    ensures
        r matches Some(p) ==> p < es@.len() && es@[p as int].0@ == k@,
        r is None ==> forall|i: int| 0 <= i < es@.len() ==> (#[trigger] es@[i]).0@ != k@,
{
    let mut i: usize = 0;
    while i < es.len()
        invariant
            i <= es@.len(),
            forall|j: int| 0 <= j < i ==> (#[trigger] es@[j]).0@ != k@,
        decreases es@.len() - i,
    {
        if es[i].0.same(k) {
            return Some(i);
        }
        i = i + 1;
    }
    None
}

pub(crate) fn value_wf(v: &LuaValue)
    ensures
        v@.wf(),
{
    match v {
        LuaValue::Table(t) => {
            proof {
                use_type_invariant(t);
            }
        },
        LuaValue::Float(f) => {
            proof {
                use_type_invariant(f);
            }
        },
        _ => {},
    }
}

impl LuaKey {
    /// The string key with the UTF-8 bytes of `s`.
    pub fn name(s: &str) -> (r: LuaKey)
        ensures
            r@ == Key::Str(s.spec_bytes()),
    {
        LuaKey::String(LuaString::new(s))
    }

    /// The integer key `i`.
    pub fn index(i: i32) -> (r: LuaKey)
        ensures
            r@ == Key::Int(i as int),
    {
        LuaKey::Integer(LuaInteger::new(i))
    }

    pub fn same(&self, o: &LuaKey) -> (r: bool)
        ensures
            r == (self@ == o@),
    {
        match (self, o) {
            (LuaKey::Integer(a), LuaKey::Integer(b)) => a.0 == b.0,
            (LuaKey::String(a), LuaKey::String(b)) => a.same(b),
            _ => false,
        }
    }

    pub fn copy(&self) -> (r: LuaKey)
        ensures
            r@ == self@,
    {
        match self {
            LuaKey::Integer(a) => LuaKey::Integer(*a),
            LuaKey::String(a) => LuaKey::String(a.copy()),
        }
    }
}

impl LuaTable {
    #[verifier::type_invariant]
    spec fn inv(&self) -> bool {
        table_model(*self).wf()
    }

    /// An empty table without class name.
    pub fn new() -> (r: LuaTable)
        ensures
            r@ == Val::Table(None, Seq::empty()),
    {
        let r = LuaTable { class: None, entries: Vec::new() };
        assert(entries_model(r.entries@, 0) =~= Seq::empty());
        r
    }

    /// An empty table tagged with a class name.
    pub fn with_class(c: LuaString) -> (r: LuaTable)
        ensures
            r@ == Val::Table(Some(c@), Seq::empty()),
    {
        let r = LuaTable { class: Some(c), entries: Vec::new() };
        assert(entries_model(r.entries@, 0) =~= Seq::empty());
        r
    }

    pub fn class(&self) -> (r: Option<&LuaString>)
        ensures
            r matches Some(c) ==> class_of(self@) == Some(c@),
            r is None <==> class_of(self@) is None,
    {
        proof {
            reveal(table_model);
        }
        match &self.class {
            Some(c) => Some(c),
            None => None,
        }
    }

    /// The number of entries.
    pub fn len(&self) -> (r: usize)
        ensures
            r == entries_of(self@).len(),
            self@ is Table,
            self@.wf(),
    {
        proof {
            use_type_invariant(self);
            reveal(table_model);
            lemma_entries_model(self.entries@, self.entries@.len() as int);
        }
        self.entries.len()
    }

    /// Entry `i` in order.
    pub fn entry(&self, i: usize) -> (r: (&LuaKey, &LuaValue))
        requires
            i < entries_of(self@).len(),
        ensures
            entries_of(self@)[i as int] == (r.0@, r.1@),
    {
        proof {
            reveal(table_model);
            lemma_entries_model(self.entries@, self.entries@.len() as int);
        }
        let e = &self.entries[i];
        (&e.0, &e.1)
    }

    /// Sets key `k` to `v`, in place where `k` is present, else as a new last entry.
    pub fn insert(&mut self, k: LuaKey, v: LuaValue)
        ensures
            final(self)@ == Val::Table(class_of(old(self)@), table_insert(entries_of(old(self)@), k@, v@)),
    {
        proof {
            use_type_invariant(&*self);
            reveal(table_model);
        }
        value_wf(&v);
        let mut es: Vec<(LuaKey, LuaValue)> = Vec::new();
        std::mem::swap(&mut es, &mut self.entries);
        let ghost m = entries_model(es@, es@.len() as int);
        let ghost kv = k@;
        let ghost vv = v@;
        proof {
            lemma_entries_model(es@, es@.len() as int);
            lemma_key_position(m, kv);
            lemma_table_insert_wf(m, kv, vv);
        }
        let found = find_key(&es, &k);
        match found {
            Some(p) => {
                proof {
                    lemma_key_position_distinct(m, p as int);
                }
                es.set(p, (k, v));
            },
            None => {
                es.push((k, v));
            },
        }
        proof {
            lemma_entries_model(es@, es@.len() as int);
            assert(entries_model(es@, es@.len() as int) =~= table_insert(m, kv, vv));
        }
        self.entries = es;
    }

    /// The value under key `k`.
    pub fn get(&self, k: &LuaKey) -> (r: Option<&LuaValue>)
        ensures
            r matches Some(v) ==> lookup(entries_of(self@), k@) == Some(v@),
            r is None <==> lookup(entries_of(self@), k@) is None,
    {
        proof {
            use_type_invariant(self);
            reveal(table_model);
            lemma_entries_model(self.entries@, self.entries@.len() as int);
            lemma_key_position(entries_of(self@), k@);
        }
        match find_key(&self.entries, k) {
            Some(p) => {
                proof {
                    lemma_key_position_distinct(entries_of(self@), p as int);
                }
                Some(&self.entries[p].1)
            },
            None => None,
        }
    }

    /// Takes out the value under key `k`; the other entries keep their order.
    pub fn remove(&mut self, k: &LuaKey) -> (r: Option<LuaValue>)
        ensures
            r matches Some(v) ==> lookup(entries_of(old(self)@), k@) == Some(v@),
            r is None <==> lookup(entries_of(old(self)@), k@) is None,
            old(self)@.wf(),
            class_of(final(self)@) == class_of(old(self)@),
            final(self)@ is Table,
            r is None ==> final(self)@ == old(self)@,
            r is Some ==> entries_of(final(self)@) == entries_of(old(self)@).remove(
                key_position(entries_of(old(self)@), k@),
            ),
    {
        proof {
            use_type_invariant(&*self);
            reveal(table_model);
        }
        let mut es: Vec<(LuaKey, LuaValue)> = Vec::new();
        std::mem::swap(&mut es, &mut self.entries);
        let ghost m = entries_model(es@, es@.len() as int);
        proof {
            lemma_entries_model(es@, es@.len() as int);
            lemma_key_position(m, k@);
            lemma_entries_wf(m, m.len() as int);
        }
        match find_key(&es, k) {
            Some(p) => {
                proof {
                    lemma_key_position_distinct(m, p as int);
                }
                let e = es.remove(p);
                proof {
                    lemma_entries_model(es@, es@.len() as int);
                    let m2 = entries_model(es@, es@.len() as int);
                    assert(m2 =~= m.remove(p as int));
                    lemma_entries_wf(m2, m2.len() as int);
                    assert forall|i: int, j: int| 0 <= i < j < m2.len() implies (#[trigger] m2[i]).0
                        != (#[trigger] m2[j]).0 by {
                        let i2 = if i < p { i } else { i + 1 };
                        let j2 = if j < p { j } else { j + 1 };
                        assert(m2[i] == m[i2] && m2[j] == m[j2]);
                    }
                }
                self.entries = es;
                Some(e.1)
            },
            None => {
                self.entries = es;
                None
            },
        }
    }

    /// The class name and the entries, in order.
    pub fn into_parts(self) -> (r: (Option<LuaString>, Vec<(LuaKey, LuaValue)>))
        ensures
            (match r.0 {
                Some(c) => Some(c@),
                None => None,
            }) == class_of(self@),
            entries_model(r.1@, r.1@.len() as int) == entries_of(self@),
    {
        proof {
            reveal(table_model);
        }
        let LuaTable { class, entries } = self;
        (class, entries)
    }

    pub fn get_string(&self, k: &LuaKey) -> (r: Option<&LuaString>)
        ensures
            r matches Some(s) ==> lookup(entries_of(self@), k@) == Some(Val::Str(s@)),
            r is None <==> !(lookup(entries_of(self@), k@) matches Some(Val::Str(_))),
    {
        match self.get(k) {
            Some(LuaValue::String(s)) => Some(s),
            _ => None,
        }
    }

    pub fn get_integer(&self, k: &LuaKey) -> (r: Option<&LuaInteger>)
        ensures
            r matches Some(i) ==> lookup(entries_of(self@), k@) == Some(Val::Int(i@)),
            r is None <==> !(lookup(entries_of(self@), k@) matches Some(Val::Int(_))),
    {
        match self.get(k) {
            Some(LuaValue::Integer(i)) => Some(i),
            _ => None,
        }
    }

    pub fn get_bool(&self, k: &LuaKey) -> (r: Option<&LuaBool>)
        ensures
            r matches Some(b) ==> lookup(entries_of(self@), k@) == Some(Val::Bool(b@)),
            r is None <==> !(lookup(entries_of(self@), k@) matches Some(Val::Bool(_))),
    {
        match self.get(k) {
            Some(LuaValue::Bool(b)) => Some(b),
            _ => None,
        }
    }

    pub fn get_float(&self, k: &LuaKey) -> (r: Option<&LuaFloat>)
        ensures
            r matches Some(f) ==> lookup(entries_of(self@), k@) == Some(Val::Float(f@)),
            r is None <==> !(lookup(entries_of(self@), k@) matches Some(Val::Float(_))),
    {
        match self.get(k) {
            Some(LuaValue::Float(f)) => Some(f),
            _ => None,
        }
    }

    pub fn get_null(&self, k: &LuaKey) -> (r: Option<&LuaNull>)
        ensures
            r is Some <==> lookup(entries_of(self@), k@) == Some(Val::Null),
    {
        match self.get(k) {
            Some(LuaValue::Null(n)) => Some(n),
            _ => None,
        }
    }

    pub fn get_table(&self, k: &LuaKey) -> (r: Option<&LuaTable>)
        ensures
            r matches Some(t) ==> lookup(entries_of(self@), k@) == Some(t@),
            r is None <==> !(lookup(entries_of(self@), k@) matches Some(Val::Table(_, _))),
    {
        match self.get(k) {
            Some(LuaValue::Table(t)) => {
                proof {
                    reveal(table_model);
                }
                Some(t)
            },
            _ => None,
        }
    }
}

/// No two pairs have the same key.
pub open spec fn pair_keys_distinct<K: LuaNameType, V>(ps: Seq<(K, V)>) -> bool {
    forall|i: int, j: int|
        0 <= i < j < ps.len() ==> (#[trigger] ps[i]).0.key_model() != (#[trigger] ps[j]).0.key_model()
}

/// Where the pair with key `k` stands, or -1.
pub open spec fn pair_position<K: LuaNameType, V>(ps: Seq<(K, V)>, k: Key) -> int
    decreases ps.len(),
{
    if ps.len() == 0 {
        -1
    } else if ps.last().0.key_model() == k {
        ps.len() - 1
    } else {
        pair_position(ps.drop_last(), k)
    }
}

proof fn lemma_pair_position<K: LuaNameType, V>(ps: Seq<(K, V)>, k: Key)
    ensures
        -1 <= pair_position(ps, k) < ps.len(),
        pair_position(ps, k) >= 0 ==> ps[pair_position(ps, k)].0.key_model() == k,
        pair_position(ps, k) == -1 <==> forall|i: int|
            0 <= i < ps.len() ==> (#[trigger] ps[i]).0.key_model() != k,
        forall|i: int| pair_position(ps, k) < i < ps.len() ==> (#[trigger] ps[i]).0.key_model() != k,
    decreases ps.len(),
{
    if ps.len() > 0 {
        lemma_pair_position(ps.drop_last(), k);
        assert forall|i: int| 0 <= i < ps.len() - 1 implies (#[trigger] ps[i]) == ps.drop_last()[i] by {}
    }
}

fn find_pair<K: LuaNameType, V>(ps: &Vec<(K, V)>, k: &K) -> (r: Option<usize>)
    ensures
        r matches Some(p) ==> p < ps@.len() && ps@[p as int].0.key_model() == k.key_model()
            && forall|j: int| 0 <= j < p ==> (#[trigger] ps@[j]).0.key_model() != k.key_model(),
        r is None ==> forall|j: int| 0 <= j < ps@.len() ==> (#[trigger] ps@[j]).0.key_model() != k.key_model(),
{
    let mut i: usize = 0;
    while i < ps.len()
        invariant
            i <= ps@.len(),
            forall|j: int| 0 <= j < i ==> (#[trigger] ps@[j]).0.key_model() != k.key_model(),
        decreases ps@.len() - i,
    {
        if ps[i].0.same_key(k) {
            return Some(i);
        }
        i = i + 1;
    }
    None
}

/// Pairs of a key and a value with distinct keys, in the order the keys were first added.
pub struct LuaArray<K: LuaNameType, V> {
    pairs: Vec<(K, V)>,
}

impl<K: LuaNameType, V> LuaArray<K, V> {
    #[verifier::type_invariant]
    spec fn inv(&self) -> bool {
        pair_keys_distinct(self.pairs@)
    }

    pub closed spec fn pairs(&self) -> Seq<(K, V)> {
        self.pairs@
    }

    pub fn new() -> (r: LuaArray<K, V>)
        ensures
            r.pairs() == Seq::<(K, V)>::empty(),
    {
        LuaArray { pairs: Vec::new() }
    }

    /// Sets key `k` to `v`: in place where a pair has that key, else as a new last pair.
    pub fn insert(&mut self, k: K, v: V)
        ensures
            pair_position(old(self).pairs(), k.key_model()) >= 0 ==> final(self).pairs() == old(
                self,
            ).pairs().update(pair_position(old(self).pairs(), k.key_model()), (k, v)),
            pair_position(old(self).pairs(), k.key_model()) < 0 ==> final(self).pairs() == old(
                self,
            ).pairs().push((k, v)),
    {
        proof {
            use_type_invariant(&*self);
        }
        let mut ps: Vec<(K, V)> = Vec::new();
        std::mem::swap(&mut ps, &mut self.pairs);
        let ghost old_ps = ps@;
        let ghost km = k.key_model();
        proof {
            lemma_pair_position(old_ps, km);
        }
        let found = find_pair(&ps, &k);
        if let Some(i) = found {
            proof {
                if pair_position(old_ps, km) != i {
                    assert(pair_position(old_ps, km) > i);
                    assert(old_ps[pair_position(old_ps, km)].0.key_model() == old_ps[i as int].0.key_model());
                }
            }
            ps.set(i, (k, v));
            proof {
                assert forall|a: int, b: int| 0 <= a < b < ps@.len() implies (#[trigger] ps@[a]).0.key_model()
                    != (#[trigger] ps@[b]).0.key_model() by {
                    assert(old_ps[a].0.key_model() != old_ps[b].0.key_model());
                }
            }
        } else {
            ps.push((k, v));
            proof {
                assert forall|a: int, b: int| 0 <= a < b < ps@.len() implies (#[trigger] ps@[a]).0.key_model()
                    != (#[trigger] ps@[b]).0.key_model() by {
                    if b == old_ps.len() {
                        assert(old_ps[a].0.key_model() != km);
                    } else {
                        assert(old_ps[a].0.key_model() != old_ps[b].0.key_model());
                    }
                }
            }
        }
        self.pairs = ps;
    }

    pub fn len(&self) -> (r: usize)
        ensures
            r == self.pairs().len(),
    {
        self.pairs.len()
    }

    /// The pairs, in order; no two have the same key.
    pub fn into_iter(self) -> (r: Vec<(K, V)>)
        ensures
            r@ == self.pairs(),
            pair_keys_distinct(r@),
    {
        proof {
            use_type_invariant(&self);
        }
        let LuaArray { pairs } = self;
        pairs
    }
}

/// A value type of the protocol.
pub trait LuaType {}

impl LuaType for LuaString {}

impl LuaType for LuaInteger {}

impl LuaType for LuaBool {}

impl LuaType for LuaNull {}

impl LuaType for LuaFloat {}

impl LuaType for LuaChunk {}

impl LuaType for LuaTable {}

impl LuaType for LuaValue {}

/// The text that a key stands for: a string itself, an integer in decimal.
pub open spec fn key_text(k: Key) -> Seq<u8> {
    match k {
        Key::Int(i) => dec_int(i),
        Key::Str(b) => b,
    }
}

/// The integer whose decimal text is `t`, where there is one.
pub open spec fn text_int(t: Seq<u8>) -> Option<int> {
    if exists|i: int| is_i32(i) && dec_int(i) == t {
        Some(choose|i: int| is_i32(i) && dec_int(i) == t)
    } else {
        None
    }
}

/// A type whose values key tables.
pub trait LuaNameType: LuaType + Sized {
    spec fn key_model(&self) -> Key;

    /// The key of this type that the key `k` becomes, where it becomes one.
    spec fn convert_key(k: Key) -> Option<Key>;

    /// The key that the string `src` stands for, or `src` back where there is none.
    fn try_from_string(src: LuaString) -> (r: Result<Self, LuaString>)
        ensures
            r is Ok <==> Self::convert_key(Key::Str(src@)) is Some,
            r matches Ok(k) ==> Self::convert_key(Key::Str(src@)) == Some(k.key_model()),
            r matches Err(e) ==> e@ == src@,
    ;

    /// The key that the integer `src` stands for, or `src` back where there is none.
    fn try_from_integer(src: LuaInteger) -> (r: Result<Self, LuaInteger>)
        ensures
            r is Ok <==> Self::convert_key(Key::Int(src@)) is Some,
            r matches Ok(k) ==> Self::convert_key(Key::Int(src@)) == Some(k.key_model()),
            r matches Err(e) ==> e@ == src@,
    ;

    /// The table key.
    fn into_key(self) -> (r: LuaKey)
        ensures
            r@ == self.key_model(),
    ;

    /// Whether both are the same key.
    fn same_key(&self, o: &Self) -> (r: bool)
        ensures
            r == (self.key_model() == o.key_model()),
    ;
}

impl LuaNameType for LuaString {
    open spec fn key_model(&self) -> Key {
        Key::Str(self@)
    }

    /// Every key becomes the string key of its text.
    open spec fn convert_key(k: Key) -> Option<Key> {
        Some(Key::Str(key_text(k)))
    }

    fn try_from_string(src: LuaString) -> (r: Result<Self, LuaString>) {
        Ok(src)
    }

    fn try_from_integer(src: LuaInteger) -> (r: Result<Self, LuaInteger>) {
        let mut b: Vec<u8> = Vec::new();
        write_int(&mut b, src.0);
        assert(b@ =~= dec_int(src@));
        Ok(LuaString(b))
    }

    fn into_key(self) -> (r: LuaKey) {
        LuaKey::String(self)
    }

    fn same_key(&self, o: &Self) -> (r: bool) {
        self.same(o)
    }
}

impl LuaNameType for LuaInteger {
    open spec fn key_model(&self) -> Key {
        Key::Int(self@)
    }

    /// An integer key stays; a string key becomes the integer that it is the exact decimal
    /// text of, and no key where it is none.
    open spec fn convert_key(k: Key) -> Option<Key> {
        match k {
            Key::Int(i) => Some(Key::Int(i)),
            Key::Str(b) => match text_int(b) {
                Some(i) => Some(Key::Int(i)),
                None => None,
            },
        }
    }

    fn try_from_string(src: LuaString) -> (r: Result<Self, LuaString>) {
        match LuaInteger::parse_text(src.as_raw()) {
            Some(i) => {
                proof {
                    let c = choose|j: int| is_i32(j) && dec_int(j) == src@;
                    assert(is_i32(c) && dec_int(c) == src@);
                }
                Ok(LuaInteger(i))
            },
            None => {
                proof {
                    if exists|j: int| is_i32(j) && dec_int(j) == src@ {
                        let c = choose|j: int| is_i32(j) && dec_int(j) == src@;
                        assert(src@ == dec_int(c));
                    }
                }
                Err(src)
            },
        }
    }

    fn try_from_integer(src: LuaInteger) -> (r: Result<Self, LuaInteger>) {
        Ok(src)
    }

    fn into_key(self) -> (r: LuaKey) {
        LuaKey::Integer(self)
    }

    fn same_key(&self, o: &Self) -> (r: bool) {
        self.0 == o.0
    }
}

impl LuaInteger {
    /// The integer whose decimal text is exactly `t`: an optional minus and digits with no
    /// leading zero.
    pub fn parse_text(t: &[u8]) -> (r: Option<i32>)
        ensures
            r matches Some(i) ==> t@ == dec_int(i as int),
            forall|i: int| is_i32(i) && t@ == #[trigger] dec_int(i) ==> r == Some(i as i32),
    {
        let neg = t.len() > 0 && t[0] == 45;
        let start: usize = if neg {
            1
        } else {
            0
        };
        let limit: u64 = if neg {
            2147483648
        } else {
            2147483647
        };
        proof {
            assert forall|i: int| is_i32(i) && t@ == #[trigger] dec_int(i) implies (i < 0 <==> neg) && holds_at(
                t@,
                start as int,
                dec_nat(if i < 0 { (-i) as nat } else { i as nat }),
            ) && digits_end_at(t@, t@.len() as int) && start + dec_nat(
                if i < 0 { (-i) as nat } else { i as nat },
            ).len() == t@.len() by {
                if i < 0 {
                    assert(t@.subrange(1, t@.len() as int) =~= dec_nat((-i) as nat));
                } else {
                    lemma_dec_nat(i as nat);
                    assert(is_digit(dec_nat(i as nat)[0]));
                    assert(t@.subrange(0, t@.len() as int) =~= t@);
                }
            }
        }
        match scan_nat(t, start, limit) {
            Some((n, end)) => {
                if end != t.len() || (neg && n == 0) {
                    return None;
                }
                let v: i32 = if neg {
                    (-(n as i64)) as i32
                } else {
                    n as i32
                };
                proof {
                    if neg {
                        assert(t@ =~= seq![45u8] + t@.subrange(1, t@.len() as int));
                    } else {
                        assert(t@ =~= t@.subrange(0, t@.len() as int));
                    }
                }
                Some(v)
            },
            None => None,
        }
    }
}

} // verus!
