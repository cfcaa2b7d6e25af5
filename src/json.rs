use vstd::prelude::*;
use vstd::utf8::{encode_scalar, encode_utf8, valid_utf8};

verus! {

/// A JSON document. Numbers keep the text they were written with.
#[derive(Debug)]
pub enum JsonValue {
    Null,
    Bool(bool),
    Number(String),
    Str(String),
    Array(Vec<JsonValue>),
    Object(Vec<(String, JsonValue)>),
}

/// The mathematical form of a JSON document.
pub enum Json {
    Null,
    Bool(bool),
    Number(Seq<char>),
    Str(Seq<char>),
    Array(Seq<Json>),
    Object(Seq<(Seq<char>, Json)>),
}

pub open spec fn view_items(s: Seq<JsonValue>) -> Seq<Json>
    decreases s,
{
    if s.len() == 0 {
        Seq::empty()
    } else {
        view_items(s.drop_last()).push(s.last().view())
    }
}

pub open spec fn view_entries(s: Seq<(String, JsonValue)>) -> Seq<(Seq<char>, Json)>
    decreases s,
{
    if s.len() == 0 {
        Seq::empty()
    } else {
        view_entries(s.drop_last()).push((s.last().0@, s.last().1.view()))
    }
}

impl View for JsonValue {
    type V = Json;

    open spec fn view(&self) -> Json
        decreases self,
    {
        match self {
            JsonValue::Null => Json::Null,
            JsonValue::Bool(b) => Json::Bool(*b),
            JsonValue::Number(t) => Json::Number(t@),
            JsonValue::Str(s) => Json::Str(s@),
            JsonValue::Array(v) => Json::Array(view_items(v@)),
            JsonValue::Object(v) => Json::Object(view_entries(v@)),
        }
    }
}


/// Byte-wise lexicographic order, compared from position `i` on.
pub open spec fn bytes_lt_from(a: Seq<u8>, b: Seq<u8>, i: int) -> bool
    decreases a.len() - i,
{
    if i < 0 || i >= a.len() {
        0 <= i < b.len()
    } else if i >= b.len() {
        false
    } else if a[i] != b[i] {
        a[i] < b[i]
    } else {
        bytes_lt_from(a, b, i + 1)
    }
}

/// Byte-wise lexicographic order on byte strings.
pub open spec fn bytes_lt(a: Seq<u8>, b: Seq<u8>) -> bool {
    bytes_lt_from(a, b, 0)
}

/// Object keys are ordered by their UTF-8 bytes.
pub open spec fn key_lt(a: Seq<char>, b: Seq<char>) -> bool {
    bytes_lt(encode_utf8(a), encode_utf8(b))
}

proof fn lemma_bytes_lt_from_irreflexive(a: Seq<u8>, i: int)
    requires
        0 <= i,
    ensures
        !bytes_lt_from(a, a, i),
    decreases a.len() - i,
{
    if i < a.len() {
        lemma_bytes_lt_from_irreflexive(a, i + 1);
    }
}

proof fn lemma_bytes_lt_from_transitive(a: Seq<u8>, b: Seq<u8>, c: Seq<u8>, i: int)
    requires
        0 <= i,
        bytes_lt_from(a, b, i),
        bytes_lt_from(b, c, i),
    ensures
        bytes_lt_from(a, c, i),
    decreases a.len() - i,
{
    if i < a.len() && i < b.len() && i < c.len() && a[i] == b[i] && b[i] == c[i] {
        lemma_bytes_lt_from_transitive(a, b, c, i + 1);
    }
}

proof fn lemma_bytes_lt_from_total(a: Seq<u8>, b: Seq<u8>, i: int)
    requires
        0 <= i <= a.len(),
        i <= b.len(),
        !bytes_lt_from(a, b, i),
        !bytes_lt_from(b, a, i),
    ensures
        a.subrange(i, a.len() as int) == b.subrange(i, b.len() as int),
    decreases a.len() - i,
{
    if i < a.len() {
        lemma_bytes_lt_from_total(a, b, i + 1);
        assert(a.subrange(i, a.len() as int) =~= seq![a[i]] + a.subrange(i + 1, a.len() as int));
        assert(b.subrange(i, b.len() as int) =~= seq![b[i]] + b.subrange(i + 1, b.len() as int));
    } else {
        assert(a.subrange(i, a.len() as int) =~= b.subrange(i, b.len() as int));
    }
}

pub proof fn lemma_key_lt_irreflexive(a: Seq<char>)
    ensures
        !key_lt(a, a),
{
    lemma_bytes_lt_from_irreflexive(encode_utf8(a), 0);
}

pub proof fn lemma_key_lt_transitive(a: Seq<char>, b: Seq<char>, c: Seq<char>)
    requires
        key_lt(a, b),
        key_lt(b, c),
    ensures
        key_lt(a, c),
{
    lemma_bytes_lt_from_transitive(encode_utf8(a), encode_utf8(b), encode_utf8(c), 0);
}

/// Two keys that neither precedes are the same key.
pub proof fn lemma_key_lt_total(a: Seq<char>, b: Seq<char>)
    requires
        !key_lt(a, b),
        !key_lt(b, a),
    ensures
        a == b,
{
    let ea = encode_utf8(a);
    let eb = encode_utf8(b);
    lemma_bytes_lt_from_total(ea, eb, 0);
    assert(ea =~= ea.subrange(0, ea.len() as int));
    assert(eb =~= eb.subrange(0, eb.len() as int));
    vstd::utf8::encode_utf8_decode_utf8(a);
    vstd::utf8::encode_utf8_decode_utf8(b);
}

/// Compares two keys by their UTF-8 bytes.
fn key_less(a: &String, b: &String) -> (r: bool)
    ensures
        r == key_lt(a@, b@),
{
    let x = a.as_str().as_bytes();
    let y = b.as_str().as_bytes();
    let mut i: usize = 0;
    while i < x.len() && i < y.len()
        invariant
            0 <= i <= x@.len(),
            i <= y@.len(),
            x@ == encode_utf8(a@),
            y@ == encode_utf8(b@),
            key_lt(a@, b@) == bytes_lt_from(x@, y@, i as int),
        decreases x.len() - i,
    {
        if x[i] != y[i] {
            return x[i] < y[i];
        }
        i = i + 1;
    }
    i < y.len()
}


/// Inserts `e` before the first entry whose key it precedes.
pub open spec fn insert_entry(e: (Seq<char>, Json), s: Seq<(Seq<char>, Json)>) -> Seq<(Seq<char>, Json)>
    decreases s.len(),
{
    if s.len() == 0 {
        seq![e]
    } else if key_lt(e.0, s[0].0) {
        seq![e] + s
    } else {
        seq![s[0]] + insert_entry(e, s.drop_first())
    }
}

/// Stable insertion sort of object entries by key.
pub open spec fn sort_entries(s: Seq<(Seq<char>, Json)>) -> Seq<(Seq<char>, Json)>
    decreases s.len(),
{
    if s.len() == 0 {
        s
    } else {
        insert_entry(s.last(), sort_entries(s.drop_last()))
    }
}

pub open spec fn canon_items(s: Seq<Json>) -> Seq<Json>
    decreases s,
{
    if s.len() == 0 {
        s
    } else {
        canon_items(s.drop_last()).push(canon(s.last()))
    }
}

pub open spec fn canon_entries(s: Seq<(Seq<char>, Json)>) -> Seq<(Seq<char>, Json)>
    decreases s,
{
    if s.len() == 0 {
        s
    } else {
        canon_entries(s.drop_last()).push((s.last().0, canon(s.last().1)))
    }
}

/// The canonical form: every object's entries ordered by key, recursively;
/// array elements keep their order.
pub open spec fn canon(j: Json) -> Json
    decreases j,
{
    match j {
        Json::Array(xs) => Json::Array(canon_items(xs)),
        Json::Object(es) => Json::Object(sort_entries(canon_entries(es))),
        _ => j,
    }
}

pub proof fn lemma_view_items(s: Seq<JsonValue>)
    ensures
        view_items(s).len() == s.len(),
        forall|i: int| 0 <= i < s.len() ==> #[trigger] view_items(s)[i] == s[i]@,
    decreases s.len(),
{
    if s.len() > 0 {
        lemma_view_items(s.drop_last());
        assert(view_items(s) == view_items(s.drop_last()).push(s.last().view()));
    } else {
        assert(view_items(s) == Seq::<Json>::empty());
    }
}

pub proof fn lemma_view_entries(s: Seq<(String, JsonValue)>)
    ensures
        view_entries(s).len() == s.len(),
        forall|i: int|
            0 <= i < s.len() ==> #[trigger] view_entries(s)[i] == (s[i].0@, s[i].1@),
    decreases s.len(),
{
    if s.len() > 0 {
        lemma_view_entries(s.drop_last());
        assert(view_entries(s) == view_entries(s.drop_last()).push((s.last().0@, s.last().1.view())));
    } else {
        assert(view_entries(s) == Seq::<(Seq<char>, Json)>::empty());
    }
}

/// The insertion point of `e` in `s` is the first index whose key `e` precedes.
proof fn lemma_insert_entry_at(e: (Seq<char>, Json), s: Seq<(Seq<char>, Json)>, p: int)
    requires
        0 <= p <= s.len(),
        forall|k: int| 0 <= k < p ==> !key_lt(e.0, #[trigger] s[k].0),
        p < s.len() ==> key_lt(e.0, s[p].0),
    ensures
        insert_entry(e, s) == s.insert(p, e),
    decreases s.len(),
{
    if s.len() == 0 {
        assert(s.insert(p, e) =~= seq![e]);
    } else if p == 0 {
        assert(s.insert(p, e) =~= seq![e] + s);
    } else {
        let t = s.drop_first();
        assert forall|k: int| 0 <= k < p - 1 implies !key_lt(e.0, #[trigger] t[k].0) by {
            assert(t[k] == s[k + 1]);
        }
        lemma_insert_entry_at(e, t, p - 1);
        assert(s.insert(p, e) =~= seq![s[0]] + t.insert(p - 1, e));
    }
}

/// Canonicalizes a document: object entries sorted by key at every depth.
pub fn canonical_json(val: &JsonValue) -> (r: JsonValue)
    ensures
        r@ == canon(val@),
        well_formed(val@) ==> well_formed(r@),
        r@ is Object ==> sorted_by_key(r@->Object_0),
    decreases val,
{
    proof {
        if well_formed(val@) {
            lemma_canon_well_formed(val@);
        }
        if val@ is Object {
            lemma_sort_entries(canon_entries(val@->Object_0));
        }
    }
    match val {
        JsonValue::Array(xs) => {
            let mut out: Vec<JsonValue> = Vec::new();
            let mut i: usize = 0;
            while i < xs.len()
                invariant
                    *val == JsonValue::Array(*xs),
                    i <= xs@.len(),
                    view_items(out@) == canon_items(view_items(xs@).take(i as int)),
                decreases xs.len() - i,
            {
                proof {
                    lemma_view_items(xs@);
                    vstd::std_specs::vec::axiom_vec_index_decreases(*xs, i as int);
                    assert(decreases_to!(*val => val->Array_0));
                    assert(decreases_to!(*val => xs[i as int]));
                }
                let c = canonical_json(&xs[i]);
                let ghost before = out@;
                out.push(c);
                proof {
                    assert(out@.drop_last() =~= before);
                    let t = view_items(xs@).take(i + 1);
                    assert(t.drop_last() =~= view_items(xs@).take(i as int));
                }
                i = i + 1;
            }
            proof {
                lemma_view_items(xs@);
                assert(view_items(xs@).take(xs@.len() as int) =~= view_items(xs@));
            }
            JsonValue::Array(out)
        },
        JsonValue::Object(es) => {
            proof {
                assert(decreases_to!(*val => val->Object_0));
            }
            JsonValue::Object(canonical_object(es, false))
        },
        JsonValue::Null => JsonValue::Null,
        JsonValue::Bool(b) => JsonValue::Bool(*b),
        JsonValue::Number(t) => JsonValue::Number(t.clone()),
        JsonValue::Str(t) => JsonValue::Str(t.clone()),
    }
}


/// The lowercase hex digit of a nibble.
pub open spec fn hex_digit(n: u8) -> u8 {
    if n < 10 {
        (48 + n) as u8
    } else {
        (87 + n) as u8
    }
}

/// How one byte of a string's UTF-8 text is written between quotes.
pub open spec fn escape_byte(b: u8) -> Seq<u8> {
    if b == 0x22 {
        seq![0x5c, 0x22]
    } else if b == 0x5c {
        seq![0x5c, 0x5c]
    } else if b == 0x08 {
        seq![0x5c, 0x62]
    } else if b == 0x0c {
        seq![0x5c, 0x66]
    } else if b == 0x0a {
        seq![0x5c, 0x6e]
    } else if b == 0x0d {
        seq![0x5c, 0x72]
    } else if b == 0x09 {
        seq![0x5c, 0x74]
    } else if b < 0x20 {
        seq![0x5c, 0x75, 0x30, 0x30, hex_digit(b / 16), hex_digit(b % 16)]
    } else {
        seq![b]
    }
}

pub open spec fn escape_bytes(s: Seq<u8>) -> Seq<u8>
    decreases s.len(),
{
    if s.len() == 0 {
        Seq::empty()
    } else {
        escape_bytes(s.drop_last()) + escape_byte(s.last())
    }
}

/// A string as a quoted JSON string literal.
pub open spec fn quoted(s: Seq<char>) -> Seq<u8> {
    seq![0x22u8] + escape_bytes(encode_utf8(s)) + seq![0x22u8]
}

/// Compact JSON text of a document, in the order its entries stand.
pub open spec fn ser(j: Json) -> Seq<u8>
    decreases j,
{
    match j {
        Json::Null => seq![0x6eu8, 0x75, 0x6c, 0x6c],
        Json::Bool(b) => if b {
            seq![0x74u8, 0x72, 0x75, 0x65]
        } else {
            seq![0x66u8, 0x61, 0x6c, 0x73, 0x65]
        },
        Json::Number(t) => encode_utf8(t),
        Json::Str(t) => quoted(t),
        Json::Array(xs) => seq![0x5bu8] + ser_items(xs) + seq![0x5du8],
        Json::Object(es) => seq![0x7bu8] + ser_entries(es) + seq![0x7du8],
    }
}

/// Array elements separated by commas.
pub open spec fn ser_items(xs: Seq<Json>) -> Seq<u8>
    decreases xs,
{
    if xs.len() == 0 {
        Seq::empty()
    } else if xs.len() == 1 {
        ser(xs[0])
    } else {
        ser_items(xs.drop_last()) + seq![0x2cu8] + ser(xs.last())
    }
}

/// Object entries `"key":value` separated by commas.
pub open spec fn ser_entries(es: Seq<(Seq<char>, Json)>) -> Seq<u8>
    decreases es,
{
    if es.len() == 0 {
        Seq::empty()
    } else if es.len() == 1 {
        quoted(es[0].0) + seq![0x3au8] + ser(es[0].1)
    } else {
        ser_entries(es.drop_last()) + seq![0x2cu8] + quoted(es.last().0) + seq![0x3au8] + ser(
            es.last().1,
        )
    }
}

/// The canonical text of a document, as UTF-8 bytes.
pub open spec fn canonical_bytes(j: Json) -> Seq<u8> {
    ser(canon(j))
}

fn push_all(out: &mut Vec<u8>, b: &[u8])
    ensures
        final(out)@ == old(out)@ + b@,
{
    let mut i: usize = 0;
    while i < b.len()
        invariant
            i <= b@.len(),
            out@ == old(out)@ + b@.take(i as int),
        decreases b.len() - i,
    {
        out.push(b[i]);
        i = i + 1;
        proof {
            assert(out@ =~= old(out)@ + b@.take(i as int));
        }
    }
    proof {
        assert(b@.take(b@.len() as int) =~= b@);
    }
}

fn hex_digit_of(n: u8) -> (r: u8)
    requires
        n < 16,
    ensures
        r == hex_digit(n),
{
    if n < 10 {
        48 + n
    } else {
        87 + n
    }
}

fn push_escaped(out: &mut Vec<u8>, b: u8)
    ensures
        final(out)@ == old(out)@ + escape_byte(b),
{
    let ghost start = out@;
    if b == 0x22 || b == 0x5c {
        out.push(0x5c);
        out.push(b);
    } else if b == 0x08 {
        out.push(0x5c);
        out.push(0x62);
    } else if b == 0x0c {
        out.push(0x5c);
        out.push(0x66);
    } else if b == 0x0a {
        out.push(0x5c);
        out.push(0x6e);
    } else if b == 0x0d {
        out.push(0x5c);
        out.push(0x72);
    } else if b == 0x09 {
        out.push(0x5c);
        out.push(0x74);
    } else if b < 0x20 {
        out.push(0x5c);
        out.push(0x75);
        out.push(0x30);
        out.push(0x30);
        out.push(hex_digit_of(b / 16));
        out.push(hex_digit_of(b % 16));
    } else {
        out.push(b);
    }
    assert(out@ =~= start + escape_byte(b));
}

fn push_quoted(out: &mut Vec<u8>, s: &String)
    ensures
        final(out)@ == old(out)@ + quoted(s@),
{
    let b = s.as_str().as_bytes();
    out.push(0x22);
    let mut i: usize = 0;
    while i < b.len()
        invariant
            i <= b@.len(),
            b@ == encode_utf8(s@),
            out@ == old(out)@ + seq![0x22u8] + escape_bytes(b@.take(i as int)),
        decreases b.len() - i,
    {
        push_escaped(out, b[i]);
        proof {
            assert(b@.take(i + 1).drop_last() =~= b@.take(i as int));
        }
        i = i + 1;
    }
    out.push(0x22);
    proof {
        assert(b@.take(b@.len() as int) =~= b@);
        assert(out@ =~= old(out)@ + quoted(s@));
    }
}

/// Appends the compact text of `v`, entries in the order they stand.
fn write_json(out: &mut Vec<u8>, v: &JsonValue)
    ensures
        final(out)@ == old(out)@ + ser(v@),
    decreases v,
{
    let ghost start = out@;
    match v {
        JsonValue::Null => {
            out.push(0x6e);
            out.push(0x75);
            out.push(0x6c);
            out.push(0x6c);
        },
        JsonValue::Bool(b) => {
            if *b {
                out.push(0x74);
                out.push(0x72);
                out.push(0x75);
                out.push(0x65);
            } else {
                out.push(0x66);
                out.push(0x61);
                out.push(0x6c);
                out.push(0x73);
                out.push(0x65);
            }
        },
        JsonValue::Number(t) => {
            push_all(out, t.as_str().as_bytes());
        },
        JsonValue::Str(t) => {
            push_quoted(out, t);
        },
        JsonValue::Array(xs) => {
            out.push(0x5b);
            let mut i: usize = 0;
            while i < xs.len()
                invariant
                    *v == JsonValue::Array(*xs),
                    i <= xs@.len(),
                    out@ == start + seq![0x5bu8] + ser_items(view_items(xs@).take(i as int)),
                decreases xs.len() - i,
            {
                proof {
                    lemma_view_items(xs@);
                    vstd::std_specs::vec::axiom_vec_index_decreases(*xs, i as int);
                    assert(decreases_to!(*v => v->Array_0));
                    assert(decreases_to!(*v => xs[i as int]));
                }
                if i > 0 {
                    out.push(0x2c);
                }
                write_json(out, &xs[i]);
                proof {
                    let t = view_items(xs@).take(i + 1);
                    assert(t.drop_last() =~= view_items(xs@).take(i as int));
                    if i == 0 {
                        assert(view_items(xs@).take(0) =~= Seq::<Json>::empty());
                    }
                }
                i = i + 1;
            }
            out.push(0x5d);
            proof {
                lemma_view_items(xs@);
                assert(view_items(xs@).take(xs@.len() as int) =~= view_items(xs@));
            }
        },
        JsonValue::Object(es) => {
            out.push(0x7b);
            let mut i: usize = 0;
            while i < es.len()
                invariant
                    *v == JsonValue::Object(*es),
                    i <= es@.len(),
                    out@ == start + seq![0x7bu8] + ser_entries(view_entries(es@).take(i as int)),
                decreases es.len() - i,
            {
                proof {
                    lemma_view_entries(es@);
                    vstd::std_specs::vec::axiom_vec_index_decreases(*es, i as int);
                    assert(decreases_to!(*v => v->Object_0));
                    assert(decreases_to!(*v => es[i as int]));
                    assert(decreases_to!(*v => es[i as int].1));
                }
                if i > 0 {
                    out.push(0x2c);
                }
                push_quoted(out, &es[i].0);
                out.push(0x3a);
                write_json(out, &es[i].1);
                proof {
                    let t = view_entries(es@).take(i + 1);
                    assert(t.drop_last() =~= view_entries(es@).take(i as int));
                    if i == 0 {
                        assert(view_entries(es@).take(0) =~= Seq::<(Seq<char>, Json)>::empty());
                    }
                }
                i = i + 1;
            }
            out.push(0x7d);
            proof {
                lemma_view_entries(es@);
                assert(view_entries(es@).take(es@.len() as int) =~= view_entries(es@));
            }
        },
    }
    proof {
        assert(out@ =~= start + ser(v@));
    }
}

/// The canonical compact text of a document, as UTF-8 bytes.
pub fn canonical_json_bytes(val: &JsonValue) -> (r: Vec<u8>)
    ensures
        r@ == canonical_bytes(val@),
{
    let c = canonical_json(val);
    let mut out: Vec<u8> = Vec::new();
    write_json(&mut out, &c);
    assert(out@ =~= canonical_bytes(val@));
    out
}


/// Keys that a signature does not cover: `receipt_sig` and `anchor`.
pub open spec fn is_unsigned_key(k: Seq<char>) -> bool {
    k == "receipt_sig"@ || k == "anchor"@
}

/// The entries a signature covers.
pub open spec fn signed_entries(es: Seq<(Seq<char>, Json)>) -> Seq<(Seq<char>, Json)>
    decreases es.len(),
{
    if es.len() == 0 {
        es
    } else if is_unsigned_key(es.last().0) {
        signed_entries(es.drop_last())
    } else {
        signed_entries(es.drop_last()).push(es.last())
    }
}

pub open spec fn kept(es: Seq<(Seq<char>, Json)>, drop_unsigned: bool) -> Seq<(Seq<char>, Json)> {
    if drop_unsigned {
        signed_entries(es)
    } else {
        es
    }
}

/// The part of a receipt that its signature covers: a top-level object loses
/// its `receipt_sig` and `anchor` entries; nested values are untouched.
pub open spec fn signed_payload(j: Json) -> Json {
    match j {
        Json::Object(es) => Json::Object(signed_entries(es)),
        _ => j,
    }
}

fn is_unsigned(k: &String) -> (r: bool)
    ensures
        r == is_unsigned_key(k@),
{
    let a = String::from_str("receipt_sig");
    let b = String::from_str("anchor");
    *k == a || *k == b
}

/// The canonical entries of an object, optionally without those a signature
/// does not cover.
fn canonical_object(es: &Vec<(String, JsonValue)>, drop_unsigned: bool) -> (r: Vec<(String, JsonValue)>)
    ensures
        view_entries(r@) == sort_entries(canon_entries(kept(view_entries(es@), drop_unsigned))),
    decreases es,
{
    let mut out: Vec<(String, JsonValue)> = Vec::new();
    let mut i: usize = 0;
    while i < es.len()
        invariant
            i <= es@.len(),
            view_entries(out@) == sort_entries(
                canon_entries(kept(view_entries(es@).take(i as int), drop_unsigned)),
            ),
        decreases es.len() - i,
    {
        proof {
            lemma_view_entries(es@);
            vstd::std_specs::vec::axiom_vec_index_decreases(*es, i as int);
            assert(decreases_to!(*es => es[i as int].1));
        }
        let skip = drop_unsigned && is_unsigned(&es[i].0);
        proof {
            let t = view_entries(es@).take(i + 1);
            assert(t.drop_last() =~= view_entries(es@).take(i as int));
        }
        if !skip {
            let c = canonical_json(&es[i].1);
            let k = es[i].0.clone();
            let mut p: usize = 0;
            while p < out.len() && !key_less(&k, &out[p].0)
                invariant
                    p <= out@.len(),
                    forall|j: int| 0 <= j < p ==> !key_lt(k@, #[trigger] out@[j].0@),
                decreases out.len() - p,
            {
                p = p + 1;
            }
            let ghost before = out@;
            proof {
                lemma_view_entries(before);
                let s = view_entries(before);
                assert forall|j: int| 0 <= j < p implies !key_lt(k@, #[trigger] s[j].0) by {
                    assert(s[j].0 == before[j].0@);
                }
                lemma_insert_entry_at((k@, c@), s, p as int);
            }
            out.insert(p, (k, c));
            proof {
                lemma_view_entries(out@);
                let u = view_entries(es@).take(i + 1);
                let t = kept(u, drop_unsigned);
                assert(u.last() == (k@, es@[i as int].1@));
                assert(t.drop_last() == kept(view_entries(es@).take(i as int), drop_unsigned));
                assert(t.last() == u.last());
                assert(canon_entries(t).drop_last() == canon_entries(t.drop_last()));
                assert(canon_entries(t).last() == (k@, c@));
                assert(view_entries(out@) =~= view_entries(before).insert(
                    p as int,
                    (k@, c@),
                ));
            }
        } else {
            proof {
                let u = view_entries(es@).take(i + 1);
                assert(kept(u, drop_unsigned) == kept(view_entries(es@).take(i as int), drop_unsigned));
            }
        }
        i = i + 1;
    }
    proof {
        lemma_view_entries(es@);
        assert(view_entries(es@).take(es@.len() as int) =~= view_entries(es@));
    }
    out
}

/// The canonical text of the part of a receipt that its signature covers.
pub fn signed_canonical_bytes(val: &JsonValue) -> (r: Vec<u8>)
    ensures
        r@ == canonical_bytes(signed_payload(val@)),
{
    match val {
        JsonValue::Object(es) => {
            let c = JsonValue::Object(canonical_object(es, true));
            let mut out: Vec<u8> = Vec::new();
            write_json(&mut out, &c);
            assert(out@ =~= canonical_bytes(signed_payload(val@)));
            out
        },
        _ => canonical_json_bytes(val),
    }
}


/// Entries ordered by key: no entry's key precedes that of an earlier one.
pub open spec fn sorted_by_key(s: Seq<(Seq<char>, Json)>) -> bool {
    forall|i: int, j: int| 0 <= i < j < s.len() ==> !key_lt(#[trigger] s[j].0, #[trigger] s[i].0)
}

/// No two entries share a key.
pub open spec fn unique_keys(s: Seq<(Seq<char>, Json)>) -> bool {
    forall|i: int, j: int| 0 <= i < s.len() && 0 <= j < s.len() && i != j ==> #[trigger] s[i].0 != #[trigger] s[j].0
}

/// Two entry lists holding the same entries, in any order.
pub open spec fn same_members(a: Seq<(Seq<char>, Json)>, b: Seq<(Seq<char>, Json)>) -> bool {
    forall|x: (Seq<char>, Json)| a.contains(x) <==> b.contains(x)
}

proof fn lemma_insert_entry(e: (Seq<char>, Json), s: Seq<(Seq<char>, Json)>)
    ensures
        insert_entry(e, s).len() == s.len() + 1,
        forall|x: (Seq<char>, Json)| #[trigger] insert_entry(e, s).contains(x) <==> (x == e || s.contains(x)),
        sorted_by_key(s) ==> sorted_by_key(insert_entry(e, s)),
        unique_keys(s) && (forall|k: int| 0 <= k < s.len() ==> #[trigger] s[k].0 != e.0)
            ==> unique_keys(insert_entry(e, s)),
    decreases s.len(),
{
    let r = insert_entry(e, s);
    if s.len() == 0 {
        assert forall|x: (Seq<char>, Json)| r.contains(x) <==> (x == e || s.contains(x)) by {
            if r.contains(x) {
                assert(r[0] == e);
            }
            if x == e {
                assert(r[0] == x);
            }
        }
    } else if key_lt(e.0, s[0].0) {
        assert forall|x: (Seq<char>, Json)| r.contains(x) <==> (x == e || s.contains(x)) by {
            if r.contains(x) {
                let i = choose|i: int| 0 <= i < r.len() && r[i] == x;
                if i > 0 {
                    assert(s[i - 1] == x);
                }
            }
            if x == e {
                assert(r[0] == x);
            }
            if s.contains(x) {
                let i = choose|i: int| 0 <= i < s.len() && s[i] == x;
                assert(r[i + 1] == x);
            }
        }
        if sorted_by_key(s) {
            assert forall|i: int, j: int| 0 <= i < j < r.len() implies !key_lt(#[trigger] r[j].0, #[trigger] r[i].0) by {
                if i == 0 {
                    if key_lt(r[j].0, e.0) {
                        lemma_key_lt_transitive(r[j].0, e.0, s[0].0);
                        if j == 1 {
                            lemma_key_lt_irreflexive(s[0].0);
                        } else {
                            assert(r[j] == s[j - 1]);
                        }
                    }
                } else {
                    assert(r[i] == s[i - 1] && r[j] == s[j - 1]);
                }
            }
        }
        if unique_keys(s) && (forall|k: int| 0 <= k < s.len() ==> #[trigger] s[k].0 != e.0) {
            assert forall|i: int, j: int| 0 <= i < r.len() && 0 <= j < r.len() && i != j implies #[trigger] r[i].0 != #[trigger] r[j].0 by {
                if i > 0 {
                    assert(r[i] == s[i - 1]);
                }
                if j > 0 {
                    assert(r[j] == s[j - 1]);
                }
            }
        }
    } else {
        let t = s.drop_first();
        let u = insert_entry(e, t);
        lemma_insert_entry(e, t);
        assert(r == seq![s[0]] + u);
        assert forall|x: (Seq<char>, Json)| r.contains(x) <==> (x == e || s.contains(x)) by {
            if r.contains(x) {
                let i = choose|i: int| 0 <= i < r.len() && r[i] == x;
                if i > 0 {
                    assert(u[i - 1] == x);
                    assert(u.contains(x));
                    if t.contains(x) {
                        let k = choose|k: int| 0 <= k < t.len() && t[k] == x;
                        assert(s[k + 1] == x);
                    }
                } else {
                    assert(s[0] == x);
                }
            }
            if x == e {
                assert(u.contains(x));
                let i = choose|i: int| 0 <= i < u.len() && u[i] == x;
                assert(r[i + 1] == x);
            }
            if s.contains(x) {
                let i = choose|i: int| 0 <= i < s.len() && s[i] == x;
                if i == 0 {
                    assert(r[0] == x);
                } else {
                    assert(t[i - 1] == x);
                    assert(u.contains(x));
                    let k = choose|k: int| 0 <= k < u.len() && u[k] == x;
                    assert(r[k + 1] == x);
                }
            }
        }
        if sorted_by_key(s) {
            assert(sorted_by_key(t)) by {
                assert forall|i: int, j: int| 0 <= i < j < t.len() implies !key_lt(#[trigger] t[j].0, #[trigger] t[i].0) by {
                    assert(t[i] == s[i + 1] && t[j] == s[j + 1]);
                }
            }
            assert forall|i: int, j: int| 0 <= i < j < r.len() implies !key_lt(#[trigger] r[j].0, #[trigger] r[i].0) by {
                if i == 0 {
                    assert(r[j] == u[j - 1]);
                    assert(u.contains(u[j - 1]));
                    if u[j - 1] != e {
                        assert(t.contains(u[j - 1]));
                        let k = choose|k: int| 0 <= k < t.len() && t[k] == u[j - 1];
                        assert(s[k + 1] == u[j - 1]);
                    }
                } else {
                    assert(r[i] == u[i - 1] && r[j] == u[j - 1]);
                }
            }
        }
        if unique_keys(s) && (forall|k: int| 0 <= k < s.len() ==> #[trigger] s[k].0 != e.0) {
            assert(unique_keys(t)) by {
                assert forall|i: int, j: int| 0 <= i < t.len() && 0 <= j < t.len() && i != j implies #[trigger] t[i].0 != #[trigger] t[j].0 by {
                    assert(t[i] == s[i + 1] && t[j] == s[j + 1]);
                }
            }
            assert(forall|k: int| 0 <= k < t.len() ==> #[trigger] t[k].0 != e.0) by {
                assert forall|k: int| 0 <= k < t.len() implies #[trigger] t[k].0 != e.0 by {
                    assert(t[k] == s[k + 1]);
                }
            }
            lemma_insert_entry(e, t);
            assert forall|i: int, j: int| 0 <= i < r.len() && 0 <= j < r.len() && i != j implies #[trigger] r[i].0 != #[trigger] r[j].0 by {
                if i == 0 || j == 0 {
                    let m = if i == 0 { j } else { i };
                    assert(r[m] == u[m - 1]);
                    assert(u.contains(u[m - 1]));
                    if u[m - 1] != e {
                        assert(t.contains(u[m - 1]));
                        let k = choose|k: int| 0 <= k < t.len() && t[k] == u[m - 1];
                        assert(s[k + 1] == u[m - 1]);
                    }
                } else {
                    assert(r[i] == u[i - 1] && r[j] == u[j - 1]);
                }
            }
        }
    }
}

proof fn lemma_sort_entries(s: Seq<(Seq<char>, Json)>)
    ensures
        sorted_by_key(sort_entries(s)),
        same_members(sort_entries(s), s),
        unique_keys(s) ==> unique_keys(sort_entries(s)),
    decreases s.len(),
{
    if s.len() > 0 {
        let t = s.drop_last();
        let e = s.last();
        lemma_sort_entries(t);
        let st = sort_entries(t);
        lemma_insert_entry(e, st);
        assert forall|x: (Seq<char>, Json)| sort_entries(s).contains(x) <==> s.contains(x) by {
            if s.contains(x) {
                let i = choose|i: int| 0 <= i < s.len() && s[i] == x;
                if i < t.len() {
                    assert(t[i] == x);
                }
            }
            if t.contains(x) {
                let i = choose|i: int| 0 <= i < t.len() && t[i] == x;
                assert(s[i] == x);
            }
        }
        if unique_keys(s) {
            assert(unique_keys(t));
            assert forall|k: int| 0 <= k < st.len() implies #[trigger] st[k].0 != e.0 by {
                assert(st.contains(st[k]));
                let i = choose|i: int| 0 <= i < t.len() && t[i] == st[k];
                assert(s[i] == st[k]);
            }
        }
    }
}

/// Sorting entries already in key order leaves them as they are.
proof fn lemma_sort_sorted(s: Seq<(Seq<char>, Json)>)
    requires
        sorted_by_key(s),
    ensures
        sort_entries(s) == s,
    decreases s.len(),
{
    if s.len() > 0 {
        let t = s.drop_last();
        lemma_sort_sorted(t);
        assert forall|k: int| 0 <= k < t.len() implies !key_lt(s.last().0, #[trigger] t[k].0) by {
            assert(t[k] == s[k]);
        }
        lemma_insert_entry_at(s.last(), t, t.len() as int);
        assert(t.insert(t.len() as int, s.last()) =~= s);
    }
}

/// Entries in key order, with distinct keys, are fixed by what they hold.
proof fn lemma_sorted_unique(a: Seq<(Seq<char>, Json)>, b: Seq<(Seq<char>, Json)>)
    requires
        sorted_by_key(a),
        sorted_by_key(b),
        unique_keys(a),
        unique_keys(b),
        same_members(a, b),
    ensures
        a == b,
    decreases a.len(),
{
    if a.len() == 0 {
        if b.len() > 0 {
            assert(b.contains(b[0]));
        }
        assert(a =~= b);
    } else {
        assert(a.contains(a[0]));
        assert(b.len() > 0);
        assert(b.contains(b[0]));
        let i = choose|i: int| 0 <= i < a.len() && a[i] == b[0];
        let j = choose|j: int| 0 <= j < b.len() && b[j] == a[0];
        if i > 0 {
            assert(!key_lt(a[i].0, a[0].0));
        }
        if j > 0 {
            assert(!key_lt(b[j].0, b[0].0));
        }
        lemma_key_lt_irreflexive(a[0].0);
        lemma_key_lt_total(a[0].0, b[0].0);
        assert(i == 0);
        let a1 = a.drop_first();
        let b1 = b.drop_first();
        assert forall|x: (Seq<char>, Json)| a1.contains(x) <==> b1.contains(x) by {
            if a1.contains(x) {
                let k = choose|k: int| 0 <= k < a1.len() && a1[k] == x;
                assert(a[k + 1] == x);
                assert(b.contains(x));
                let m = choose|m: int| 0 <= m < b.len() && b[m] == x;
                if m == 0 {
                    assert(a[0].0 == a[k + 1].0);
                }
                assert(b1[m - 1] == x);
            }
            if b1.contains(x) {
                let k = choose|k: int| 0 <= k < b1.len() && b1[k] == x;
                assert(b[k + 1] == x);
                assert(a.contains(x));
                let m = choose|m: int| 0 <= m < a.len() && a[m] == x;
                if m == 0 {
                    assert(b[0].0 == b[k + 1].0);
                }
                assert(a1[m - 1] == x);
            }
        }
        assert(sorted_by_key(a1)) by {
            assert forall|p: int, q: int| 0 <= p < q < a1.len() implies !key_lt(#[trigger] a1[q].0, #[trigger] a1[p].0) by {
                assert(a1[p] == a[p + 1] && a1[q] == a[q + 1]);
            }
        }
        assert(sorted_by_key(b1)) by {
            assert forall|p: int, q: int| 0 <= p < q < b1.len() implies !key_lt(#[trigger] b1[q].0, #[trigger] b1[p].0) by {
                assert(b1[p] == b[p + 1] && b1[q] == b[q + 1]);
            }
        }
        assert(unique_keys(a1)) by {
            assert forall|p: int, q: int| 0 <= p < a1.len() && 0 <= q < a1.len() && p != q implies #[trigger] a1[p].0 != #[trigger] a1[q].0 by {
                assert(a1[p] == a[p + 1] && a1[q] == a[q + 1]);
            }
        }
        assert(unique_keys(b1)) by {
            assert forall|p: int, q: int| 0 <= p < b1.len() && 0 <= q < b1.len() && p != q implies #[trigger] b1[p].0 != #[trigger] b1[q].0 by {
                assert(b1[p] == b[p + 1] && b1[q] == b[q + 1]);
            }
        }
        lemma_sorted_unique(a1, b1);
        assert(a =~= seq![a[0]] + a1);
        assert(b =~= seq![b[0]] + b1);
    }
}


proof fn lemma_canon_items(s: Seq<Json>)
    ensures
        canon_items(s).len() == s.len(),
        forall|i: int| 0 <= i < s.len() ==> #[trigger] canon_items(s)[i] == canon(s[i]),
    decreases s.len(),
{
    if s.len() > 0 {
        lemma_canon_items(s.drop_last());
        assert(canon_items(s) == canon_items(s.drop_last()).push(canon(s.last())));
    }
}

proof fn lemma_canon_entries(s: Seq<(Seq<char>, Json)>)
    ensures
        canon_entries(s).len() == s.len(),
        forall|i: int| 0 <= i < s.len() ==> #[trigger] canon_entries(s)[i] == (s[i].0, canon(s[i].1)),
    decreases s.len(),
{
    if s.len() > 0 {
        lemma_canon_entries(s.drop_last());
        assert(canon_entries(s) == canon_entries(s.drop_last()).push((s.last().0, canon(s.last().1))));
    }
}

/// Canonicalizing twice gives what canonicalizing once gives.
pub proof fn lemma_canonicalize_idempotent(j: Json)
    ensures
        canon(canon(j)) == canon(j),
        canonical_bytes(canon(j)) == canonical_bytes(j),
    decreases j,
{
    match j {
        Json::Array(xs) => {
            let c = canon_items(xs);
            lemma_canon_items(xs);
            lemma_canon_items(c);
            assert forall|i: int| 0 <= i < xs.len() implies #[trigger] canon_items(c)[i] == c[i] by {
                lemma_canonicalize_idempotent(xs[i]);
            }
            assert(canon_items(c) =~= c);
        },
        Json::Object(es) => {
            let ce = canon_entries(es);
            lemma_canon_entries(es);
            let srt = sort_entries(ce);
            lemma_sort_entries(ce);
            lemma_canon_entries(srt);
            assert forall|k: int| 0 <= k < srt.len() implies #[trigger] canon_entries(srt)[k] == srt[k] by {
                assert(srt.contains(srt[k]));
                let i = choose|i: int| 0 <= i < ce.len() && ce[i] == srt[k];
                lemma_canonicalize_idempotent(es[i].1);
            }
            assert(canon_entries(srt) =~= srt);
            lemma_sort_sorted(srt);
        },
        _ => {},
    }
}

/// Reordering an object's entries (keys distinct) changes neither its
/// canonical form nor its canonical text.
pub proof fn lemma_key_order_independent(a: Seq<(Seq<char>, Json)>, b: Seq<(Seq<char>, Json)>)
    requires
        unique_keys(a),
        unique_keys(b),
        same_members(a, b),
    ensures
        canon(Json::Object(a)) == canon(Json::Object(b)),
        canonical_bytes(Json::Object(a)) == canonical_bytes(Json::Object(b)),
{
    let ca = canon_entries(a);
    let cb = canon_entries(b);
    lemma_canon_entries(a);
    lemma_canon_entries(b);
    assert forall|x: (Seq<char>, Json)| ca.contains(x) implies cb.contains(x) by {
        let i = choose|i: int| 0 <= i < ca.len() && ca[i] == x;
        assert(a.contains(a[i]));
        let m = choose|m: int| 0 <= m < b.len() && b[m] == a[i];
        assert(cb[m] == x);
    }
    assert forall|x: (Seq<char>, Json)| cb.contains(x) implies ca.contains(x) by {
        let i = choose|i: int| 0 <= i < cb.len() && cb[i] == x;
        assert(b.contains(b[i]));
        let m = choose|m: int| 0 <= m < a.len() && a[m] == b[i];
        assert(ca[m] == x);
    }
    assert(unique_keys(ca)) by {
        assert forall|p: int, q: int| 0 <= p < ca.len() && 0 <= q < ca.len() && p != q implies #[trigger] ca[p].0 != #[trigger] ca[q].0 by {
            assert(a[p].0 != a[q].0);
        }
    }
    assert(unique_keys(cb)) by {
        assert forall|p: int, q: int| 0 <= p < cb.len() && 0 <= q < cb.len() && p != q implies #[trigger] cb[p].0 != #[trigger] cb[q].0 by {
            assert(b[p].0 != b[q].0);
        }
    }
    lemma_sort_entries(ca);
    lemma_sort_entries(cb);
    lemma_sorted_unique(sort_entries(ca), sort_entries(cb));
}

/// An object's canonical form depends on its values only through their
/// canonical forms, so reordering at any depth leaves it unchanged.
pub proof fn lemma_object_congruence(a: Seq<(Seq<char>, Json)>, b: Seq<(Seq<char>, Json)>)
    requires
        a.len() == b.len(),
        forall|i: int| 0 <= i < a.len() ==> #[trigger] a[i].0 == b[i].0 && canon(a[i].1) == canon(b[i].1),
    ensures
        canon(Json::Object(a)) == canon(Json::Object(b)),
        canonical_bytes(Json::Object(a)) == canonical_bytes(Json::Object(b)),
{
    lemma_canon_entries(a);
    lemma_canon_entries(b);
    assert(canon_entries(a) =~= canon_entries(b));
}

/// An array's canonical form depends on its elements only through their
/// canonical forms.
pub proof fn lemma_array_congruence(a: Seq<Json>, b: Seq<Json>)
    requires
        a.len() == b.len(),
        forall|i: int| 0 <= i < a.len() ==> canon(#[trigger] a[i]) == canon(b[i]),
    ensures
        canon(Json::Array(a)) == canon(Json::Array(b)),
        canonical_bytes(Json::Array(a)) == canonical_bytes(Json::Array(b)),
{
    lemma_canon_items(a);
    lemma_canon_items(b);
    assert(canon_items(a) =~= canon_items(b));
}


/// Two documents that differ at most in the order of object entries, at any
/// depth: arrays match element by element, objects (keys distinct) have the
/// same keys with matching values, and everything else is equal.
pub open spec fn reordered(a: Json, b: Json) -> bool
    decreases a,
{
    match a {
        Json::Array(xs) => match b {
            Json::Array(ys) => xs.len() == ys.len() && forall|i: int|
                0 <= i < xs.len() ==> reordered(#[trigger] xs[i], ys[i]),
            _ => false,
        },
        Json::Object(es) => match b {
            Json::Object(fs) => {
                &&& unique_keys(es)
                &&& unique_keys(fs)
                &&& forall|i: int|
                    0 <= i < es.len() ==> exists|j: int|
                        0 <= j < fs.len() && fs[j].0 == (#[trigger] es[i]).0 && reordered(
                            es[i].1,
                            fs[j].1,
                        )
                &&& forall|j: int|
                    0 <= j < fs.len() ==> exists|i: int|
                        0 <= i < es.len() && es[i].0 == (#[trigger] fs[j]).0 && reordered(
                            es[i].1,
                            fs[j].1,
                        )
            },
            _ => false,
        },
        _ => a == b,
    }
}

/// Documents that differ only in the order of object entries, at any depth,
/// have the same canonical form and the same canonical text.
pub proof fn lemma_reordered_same_canonical(a: Json, b: Json)
    requires
        reordered(a, b),
    ensures
        canon(a) == canon(b),
        canonical_bytes(a) == canonical_bytes(b),
    decreases a,
{
    match a {
        Json::Array(xs) => {
            let ys = b->Array_0;
            lemma_canon_items(xs);
            lemma_canon_items(ys);
            assert forall|i: int| 0 <= i < xs.len() implies canon_items(xs)[i] == canon_items(ys)[i] by {
                lemma_reordered_same_canonical(xs[i], ys[i]);
            }
            assert(canon_items(xs) =~= canon_items(ys));
        },
        Json::Object(es) => {
            let fs = b->Object_0;
            let ca = canon_entries(es);
            let cb = canon_entries(fs);
            lemma_canon_entries(es);
            lemma_canon_entries(fs);
            assert forall|x: (Seq<char>, Json)| ca.contains(x) implies cb.contains(x) by {
                let i = choose|i: int| 0 <= i < ca.len() && ca[i] == x;
                assert(es[i] == es[i]);
                let j = choose|j: int|
                    0 <= j < fs.len() && fs[j].0 == es[i].0 && reordered(es[i].1, fs[j].1);
                lemma_reordered_same_canonical(es[i].1, fs[j].1);
                assert(cb[j] == x);
            }
            assert forall|x: (Seq<char>, Json)| cb.contains(x) implies ca.contains(x) by {
                let j = choose|j: int| 0 <= j < cb.len() && cb[j] == x;
                assert(fs[j] == fs[j]);
                let i = choose|i: int|
                    0 <= i < es.len() && es[i].0 == fs[j].0 && reordered(es[i].1, fs[j].1);
                lemma_reordered_same_canonical(es[i].1, fs[j].1);
                assert(ca[i] == x);
            }
            assert(unique_keys(ca)) by {
                assert forall|p: int, q: int| 0 <= p < ca.len() && 0 <= q < ca.len() && p != q implies #[trigger] ca[p].0 != #[trigger] ca[q].0 by {
                    assert(es[p].0 != es[q].0);
                }
            }
            assert(unique_keys(cb)) by {
                assert forall|p: int, q: int| 0 <= p < cb.len() && 0 <= q < cb.len() && p != q implies #[trigger] cb[p].0 != #[trigger] cb[q].0 by {
                    assert(fs[p].0 != fs[q].0);
                }
            }
            lemma_sort_entries(ca);
            lemma_sort_entries(cb);
            lemma_sorted_unique(sort_entries(ca), sort_entries(cb));
        },
        _ => {},
    }
}


proof fn lemma_ascii_valid(b: Seq<u8>)
    requires
        forall|i: int| 0 <= i < b.len() ==> #[trigger] b[i] < 0x80,
    ensures
        valid_utf8(b),
{
    let c = Seq::new(b.len(), |i: int| b[i] as char);
    assert(vstd::utf8::is_ascii_chars(c));
    vstd::utf8::is_ascii_chars_encode_utf8(c);
    assert(encode_utf8(c) =~= b);
    vstd::utf8::encode_utf8_valid_utf8(c);
}

proof fn lemma_escape_concat(a: Seq<u8>, b: Seq<u8>)
    ensures
        escape_bytes(a + b) == escape_bytes(a) + escape_bytes(b),
    decreases b.len(),
{
    if b.len() == 0 {
        assert(a + b =~= a);
        assert(escape_bytes(a) + escape_bytes(b) =~= escape_bytes(a));
    } else {
        lemma_escape_concat(a, b.drop_last());
        assert((a + b).drop_last() =~= a + b.drop_last());
        assert((a + b).last() == b.last());
    }
}

proof fn lemma_escape_high(b: Seq<u8>)
    requires
        forall|i: int| 0 <= i < b.len() ==> #[trigger] b[i] >= 0x80,
    ensures
        escape_bytes(b) == b,
    decreases b.len(),
{
    if b.len() > 0 {
        lemma_escape_high(b.drop_last());
        assert(escape_bytes(b) =~= b);
    }
}

proof fn lemma_or_high(y: u8)
    by (bit_vector)
    ensures
        (0x80u8 | y) >= 0x80,
        (0xC0u8 | y) >= 0x80,
        (0xE0u8 | y) >= 0x80,
        (0xF0u8 | y) >= 0x80,
{
}

proof fn lemma_low7(x: u32)
    by (bit_vector)
    ensures
        ((x & 0x7F) as u8) < 0x80,
{
}

/// Escaping keeps UTF-8 text valid: only ASCII bytes change, into ASCII.
proof fn lemma_escape_valid(s: Seq<char>)
    ensures
        valid_utf8(escape_bytes(encode_utf8(s))),
    decreases s.len(),
{
    if s.len() == 0 {
        assert(escape_bytes(encode_utf8(s)) =~= Seq::<u8>::empty());
    } else {
        let c = s[0] as u32;
        let e = encode_scalar(c);
        let rest = encode_utf8(s.drop_first());
        assert(encode_utf8(s) == e + rest);
        lemma_escape_concat(e, rest);
        lemma_escape_valid(s.drop_first());
        if c <= 0x7F {
            lemma_low7(c);
            let x = e[0];
            assert(e =~= seq![x]);
            assert(escape_bytes(e) == escape_bytes(Seq::<u8>::empty()) + escape_byte(x)) by {
                assert(e.drop_last() =~= Seq::<u8>::empty());
            }
            let eb = escape_byte(x);
            assert forall|i: int| 0 <= i < eb.len() implies #[trigger] eb[i] < 0x80 by {}
            assert(escape_bytes(e) =~= eb);
            lemma_ascii_valid(eb);
        } else {
            lemma_or_high(((c >> 6) & 0x1F) as u8);
            lemma_or_high(((c >> 12) & 0x0F) as u8);
            lemma_or_high(((c >> 18) & 0x7) as u8);
            lemma_or_high((c & 0x3F) as u8);
            lemma_or_high(((c >> 6) & 0x3F) as u8);
            lemma_or_high(((c >> 12) & 0x3F) as u8);
            assert forall|i: int| 0 <= i < e.len() implies #[trigger] e[i] >= 0x80 by {}
            lemma_escape_high(e);
            let t = seq![s[0]];
            assert(t[0] == s[0]);
            assert(t.drop_first() =~= Seq::<char>::empty());
            assert(encode_utf8(t.drop_first()) =~= Seq::<u8>::empty());
            assert(encode_utf8(t) == e + encode_utf8(t.drop_first()));
            assert(encode_utf8(t) =~= e);
            vstd::utf8::encode_utf8_valid_utf8(t);
        }
        vstd::utf8::valid_utf8_concat(escape_bytes(e), escape_bytes(rest));
    }
}


proof fn lemma_quoted_valid(s: Seq<char>)
    ensures
        valid_utf8(quoted(s)),
{
    let q = seq![0x22u8];
    assert forall|i: int| 0 <= i < q.len() implies #[trigger] q[i] < 0x80 by {}
    lemma_ascii_valid(q);
    lemma_escape_valid(s);
    let e = escape_bytes(encode_utf8(s));
    vstd::utf8::valid_utf8_concat(q, e);
    vstd::utf8::valid_utf8_concat(q + e, q);
}

proof fn lemma_wrapped_valid(open_byte: u8, body: Seq<u8>, close_byte: u8)
    requires
        open_byte < 0x80,
        close_byte < 0x80,
        valid_utf8(body),
    ensures
        valid_utf8(seq![open_byte] + body + seq![close_byte]),
{
    let o = seq![open_byte];
    let c = seq![close_byte];
    assert forall|i: int| 0 <= i < o.len() implies #[trigger] o[i] < 0x80 by {}
    assert forall|i: int| 0 <= i < c.len() implies #[trigger] c[i] < 0x80 by {}
    lemma_ascii_valid(o);
    lemma_ascii_valid(c);
    vstd::utf8::valid_utf8_concat(o, body);
    vstd::utf8::valid_utf8_concat(o + body, c);
}

/// The compact text of every document is valid UTF-8.
pub proof fn lemma_ser_valid_utf8(j: Json)
    ensures
        valid_utf8(ser(j)),
    decreases j,
{
    match j {
        Json::Number(t) => {
            vstd::utf8::encode_utf8_valid_utf8(t);
        },
        Json::Str(t) => {
            lemma_quoted_valid(t);
        },
        Json::Array(xs) => {
            lemma_items_valid_utf8(xs);
            lemma_wrapped_valid(0x5b, ser_items(xs), 0x5d);
        },
        Json::Object(es) => {
            lemma_entries_valid_utf8(es);
            lemma_wrapped_valid(0x7b, ser_entries(es), 0x7d);
        },
        _ => {
            let b = ser(j);
            assert forall|i: int| 0 <= i < b.len() implies #[trigger] b[i] < 0x80 by {}
            lemma_ascii_valid(b);
        },
    }
}

proof fn lemma_items_valid_utf8(xs: Seq<Json>)
    ensures
        valid_utf8(ser_items(xs)),
    decreases xs,
{
    if xs.len() == 0 {
        lemma_ascii_valid(Seq::<u8>::empty());
    } else if xs.len() == 1 {
        lemma_ser_valid_utf8(xs[0]);
    } else {
        lemma_items_valid_utf8(xs.drop_last());
        lemma_ser_valid_utf8(xs.last());
        let comma = seq![0x2cu8];
        assert forall|i: int| 0 <= i < comma.len() implies #[trigger] comma[i] < 0x80 by {}
        lemma_ascii_valid(comma);
        let a = ser_items(xs.drop_last());
        vstd::utf8::valid_utf8_concat(a, comma);
        vstd::utf8::valid_utf8_concat(a + comma, ser(xs.last()));
    }
}

proof fn lemma_entry_valid_utf8(e: (Seq<char>, Json))
    ensures
        valid_utf8(quoted(e.0) + seq![0x3au8] + ser(e.1)),
    decreases e,
{
    lemma_quoted_valid(e.0);
    lemma_ser_valid_utf8(e.1);
    let colon = seq![0x3au8];
    assert forall|i: int| 0 <= i < colon.len() implies #[trigger] colon[i] < 0x80 by {}
    lemma_ascii_valid(colon);
    vstd::utf8::valid_utf8_concat(quoted(e.0), colon);
    vstd::utf8::valid_utf8_concat(quoted(e.0) + colon, ser(e.1));
}

proof fn lemma_entries_valid_utf8(es: Seq<(Seq<char>, Json)>)
    ensures
        valid_utf8(ser_entries(es)),
    decreases es,
{
    if es.len() == 0 {
        lemma_ascii_valid(Seq::<u8>::empty());
    } else if es.len() == 1 {
        lemma_entry_valid_utf8(es[0]);
    } else {
        lemma_entries_valid_utf8(es.drop_last());
        lemma_entry_valid_utf8(es.last());
        let comma = seq![0x2cu8];
        assert forall|i: int| 0 <= i < comma.len() implies #[trigger] comma[i] < 0x80 by {}
        lemma_ascii_valid(comma);
        let a = ser_entries(es.drop_last());
        let e = es.last();
        let t = quoted(e.0) + seq![0x3au8] + ser(e.1);
        vstd::utf8::valid_utf8_concat(a, comma);
        vstd::utf8::valid_utf8_concat(a + comma, t);
        assert(ser_entries(es) =~= a + comma + t);
    }
}


pub open spec fn all_digits(s: Seq<char>) -> bool {
    s.len() > 0 && forall|i: int| 0 <= i < s.len() ==> '0' <= #[trigger] s[i] && s[i] <= '9'
}

/// Number text as JSON writes it: an optional minus, an integer part without
/// leading zeros, an optional fraction and an optional exponent.
pub open spec fn is_json_number(t: Seq<char>) -> bool {
    exists|sign: Seq<char>, int_part: Seq<char>, frac: Seq<char>, exp: Seq<char>|
        {
            &&& t == sign + int_part + frac + exp
            &&& sign.len() == 0 || sign == seq!['-']
            &&& int_part == seq!['0'] || (all_digits(int_part) && int_part[0] != '0')
            &&& frac.len() == 0 || (frac[0] == '.' && all_digits(frac.drop_first()))
            &&& exp.len() == 0 || (exp.len() >= 2 && (exp[0] == 'e' || exp[0] == 'E') && (
            all_digits(exp.drop_first()) || ((exp[1] == '+' || exp[1] == '-') && all_digits(
                exp.skip(2),
            ))))
        }
}

/// A document as JSON text can give it: numbers in JSON syntax and, in every
/// object, distinct keys.
pub open spec fn well_formed(j: Json) -> bool
    decreases j,
{
    match j {
        Json::Number(t) => is_json_number(t),
        Json::Array(xs) => forall|i: int| 0 <= i < xs.len() ==> well_formed(#[trigger] xs[i]),
        Json::Object(es) => unique_keys(es) && forall|i: int|
            0 <= i < es.len() ==> well_formed((#[trigger] es[i]).1),
        _ => true,
    }
}

/// Canonicalizing keeps a document well formed.
pub proof fn lemma_canon_well_formed(j: Json)
    requires
        well_formed(j),
    ensures
        well_formed(canon(j)),
    decreases j,
{
    match j {
        Json::Array(xs) => {
            lemma_canon_items(xs);
            assert forall|i: int| 0 <= i < canon_items(xs).len() implies well_formed(
                #[trigger] canon_items(xs)[i],
            ) by {
                lemma_canon_well_formed(xs[i]);
            }
        },
        Json::Object(es) => {
            let ce = canon_entries(es);
            lemma_canon_entries(es);
            assert(unique_keys(ce)) by {
                assert forall|p: int, q: int| 0 <= p < ce.len() && 0 <= q < ce.len() && p != q implies #[trigger] ce[p].0 != #[trigger] ce[q].0 by {
                    assert(es[p].0 != es[q].0);
                }
            }
            lemma_sort_entries(ce);
            let srt = sort_entries(ce);
            assert forall|k: int| 0 <= k < srt.len() implies well_formed((#[trigger] srt[k]).1) by {
                assert(srt.contains(srt[k]));
                let i = choose|i: int| 0 <= i < ce.len() && ce[i] == srt[k];
                assert(es[i] == es[i]);
                lemma_canon_well_formed(es[i].1);
            }
        },
        _ => {},
    }
}

} // verus!
