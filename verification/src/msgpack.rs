//! MessagePack values as the library reads and writes them. Reading bytes
//! is rmpv's; writing follows the stored format, which gives every integer
//! its shortest signed form.
use vstd::prelude::*;
use vstd::utf8::encode_utf8;

verus! {

/// A MessagePack value as the contracts see it.
pub enum Msg {
    Nil,
    Boolean(bool),
    /// An integer, with its value when it fits in `i64`.
    Integer(Option<i64>),
    Float,
    /// A string, with its text when it is valid UTF-8.
    Str(Option<Seq<char>>),
    Binary,
    Array(Seq<Msg>),
    /// A map, as its key/value pairs in the order they are stored.
    Entries(Seq<(Msg, Msg)>),
    Ext(i8, Seq<u8>),
}

/// A value decoded from MessagePack bytes.
#[derive(Debug)]
pub enum MsgValue {
    Nil,
    Boolean(bool),
    Integer(Option<i64>),
    Float,
    Str(Option<String>),
    Binary,
    Array(Vec<MsgValue>),
    Entries(Vec<(MsgValue, MsgValue)>),
    Ext(i8, Vec<u8>),
}

impl View for MsgValue {
    type V = Msg;

    open spec fn view(&self) -> Msg
        decreases self,
    {
        match self {
            MsgValue::Nil => Msg::Nil,
            MsgValue::Boolean(b) => Msg::Boolean(*b),
            MsgValue::Integer(n) => Msg::Integer(*n),
            MsgValue::Float => Msg::Float,
            MsgValue::Str(s) => Msg::Str(
                match s {
                    Some(t) => Some(t@),
                    None => None,
                },
            ),
            MsgValue::Binary => Msg::Binary,
            MsgValue::Array(a) => Msg::Array(
                Seq::new(a@.len(), |i: int| if 0 <= i < a@.len() { a@[i].view() } else { Msg::Nil }),
            ),
            MsgValue::Entries(es) => Msg::Entries(
                Seq::new(
                    es@.len(),
                    |i: int|
                        if 0 <= i < es@.len() {
                            (es@[i].0.view(), es@[i].1.view())
                        } else {
                            (Msg::Nil, Msg::Nil)
                        },
                ),
            ),
            MsgValue::Ext(t, d) => Msg::Ext(*t, d@),
        }
    }
}

/// A value to be encoded as MessagePack.
#[derive(Debug)]
pub enum MsgOut {
    Nil,
    Int(i64),
    Str(String),
    Array(Vec<MsgOut>),
    Entries(Vec<(MsgOut, MsgOut)>),
    Ext(i8, Vec<u8>),
}

impl View for MsgOut {
    type V = Msg;

    open spec fn view(&self) -> Msg
        decreases self,
    {
        match self {
            MsgOut::Nil => Msg::Nil,
            MsgOut::Int(n) => Msg::Integer(Some(*n)),
            MsgOut::Str(s) => Msg::Str(Some(s@)),
            MsgOut::Array(a) => Msg::Array(
                Seq::new(a@.len(), |i: int| if 0 <= i < a@.len() { a@[i].view() } else { Msg::Nil }),
            ),
            MsgOut::Entries(es) => Msg::Entries(
                Seq::new(
                    es@.len(),
                    |i: int|
                        if 0 <= i < es@.len() {
                            (es@[i].0.view(), es@[i].1.view())
                        } else {
                            (Msg::Nil, Msg::Nil)
                        },
                ),
            ),
            MsgOut::Ext(t, d) => Msg::Ext(*t, d@),
        }
    }
}

/// Whether a value can be written and read back unchanged: it is made of
/// nil, integers, valid strings, arrays, maps and extensions, it nests at
/// most `depth` levels of arrays and maps, and every length fits the 32-bit
/// length fields of the format.
pub open spec fn msg_fits(m: Msg, depth: nat) -> bool
    decreases m,
{
    match m {
        Msg::Nil => true,
        Msg::Integer(n) => n is Some,
        Msg::Str(s) => s matches Some(t) && encode_utf8(t).len() <= u32::MAX,
        Msg::Array(a) => {
            &&& depth > 0
            &&& a.len() <= u32::MAX
            &&& forall|i: int| 0 <= i < a.len() ==> msg_fits(#[trigger] a[i], (depth - 1) as nat)
        },
        Msg::Entries(es) => {
            &&& depth > 0
            &&& es.len() <= u32::MAX
            &&& forall|i: int|
                0 <= i < es.len() ==> msg_fits(#[trigger] es[i].0, (depth - 1) as nat) && msg_fits(
                    es[i].1,
                    (depth - 1) as nat,
                )
        },
        Msg::Ext(_, d) => d.len() <= u32::MAX,
        _ => false,
    }
}

/// The value that `rmpv::decode::read_value` reads from the start of `bytes`,
/// or `None` when it reports an error.
pub uninterp spec fn msgpack_read(bytes: Seq<u8>) -> Option<Msg>;

#[verifier::external_type_specification]
#[verifier::external_body]
pub struct ExRmpvValue(rmpv::Value);

/// Turns an `rmpv::Value` into a `MsgValue` node for node: integers keep
/// `Integer::as_i64`, strings keep `Utf8String::into_str`, float and binary
/// payloads are dropped. No contract: the reader's contract covers it.
#[verifier::external_body]
fn msg_from_rmpv(v: rmpv::Value) -> MsgValue {
    match v {
        rmpv::Value::Nil => MsgValue::Nil,
        rmpv::Value::Boolean(b) => MsgValue::Boolean(b),
        rmpv::Value::Integer(n) => MsgValue::Integer(n.as_i64()),
        rmpv::Value::String(s) => MsgValue::Str(s.into_str()),
        rmpv::Value::Binary(_) => MsgValue::Binary,
        rmpv::Value::Array(a) => MsgValue::Array(a.into_iter().map(msg_from_rmpv).collect()),
        rmpv::Value::Map(m) => MsgValue::Entries(m.into_iter().map(|(k, x)| (msg_from_rmpv(k), msg_from_rmpv(x))).collect()),
        rmpv::Value::Ext(t, d) => MsgValue::Ext(t, d),
        _ => MsgValue::Float,
    }
}

/// Calls `rmpv::decode::read_value` on the bytes. Claims that the value read
/// is rmpv's reading of these bytes, that an error is reported exactly when
/// rmpv reports one, and that the bytes `encoding` gives for a value within
/// the format's limits read back as that value (`read_value` accepts every
/// marker `encoding` writes, takes each integer by its value, and allows
/// 1024 levels of nesting).
#[verifier::external_body]
pub(crate) fn read_msgpack(bytes: &[u8]) -> (r: Option<MsgValue>)
    ensures
        match r {
            Some(v) => msgpack_read(bytes@) == Some(v@),
            None => msgpack_read(bytes@) is None,
        },
        r is None ==> forall|m: Msg| !(msg_fits(m, 64) && #[trigger] encoding(m) == bytes@),
        r matches Some(v) ==> forall|m: Msg| msg_fits(m, 64) && #[trigger] encoding(m) == bytes@ ==> v@ == m,
{
    rmpv::decode::read_value(&mut std::io::Cursor::new(bytes)).ok().map(msg_from_rmpv)
}

// ---------------------------------------------------------------- writing

pub open spec fn be_bytes2(u: u16) -> Seq<u8> {
    seq![(u >> 8u16) as u8, u as u8]
}

pub open spec fn be_bytes4(u: u32) -> Seq<u8> {
    seq![(u >> 24u32) as u8, (u >> 16u32) as u8, (u >> 8u32) as u8, u as u8]
}

pub open spec fn be_bytes8(u: u64) -> Seq<u8> {
    seq![
        (u >> 56u64) as u8,
        (u >> 48u64) as u8,
        (u >> 40u64) as u8,
        (u >> 32u64) as u8,
        (u >> 24u64) as u8,
        (u >> 16u64) as u8,
        (u >> 8u64) as u8,
        u as u8,
    ]
}

/// An integer in its shortest signed form: a positive fixnum for 0 to 127,
/// a negative fixnum for -32 to -1, and otherwise int 8, 16, 32 or 64.
pub open spec fn int_bytes(n: i64) -> Seq<u8> {
    if -32 <= n < 128 {
        seq![n as u8]
    } else if -128 <= n < 128 {
        seq![0xd0u8, n as u8]
    } else if -32768 <= n < 32768 {
        seq![0xd1u8] + be_bytes2(n as u16)
    } else if -2147483648 <= n < 2147483648 {
        seq![0xd2u8] + be_bytes4(n as u32)
    } else {
        seq![0xd3u8] + be_bytes8(n as u64)
    }
}

/// The head of a string of `len` bytes: fixstr, str 8, str 16 or str 32.
pub open spec fn str_header(len: nat) -> Seq<u8> {
    if len < 32 {
        seq![(0xa0 + len) as u8]
    } else if len < 256 {
        seq![0xd9u8, len as u8]
    } else if len < 65536 {
        seq![0xdau8] + be_bytes2(len as u16)
    } else {
        seq![0xdbu8] + be_bytes4(len as u32)
    }
}

/// The head of an array of `len` items: fixarray, array 16 or array 32.
pub open spec fn array_header(len: nat) -> Seq<u8> {
    if len < 16 {
        seq![(0x90 + len) as u8]
    } else if len < 65536 {
        seq![0xdcu8] + be_bytes2(len as u16)
    } else {
        seq![0xddu8] + be_bytes4(len as u32)
    }
}

/// The head of a map of `len` entries: fixmap, map 16 or map 32.
pub open spec fn map_header(len: nat) -> Seq<u8> {
    if len < 16 {
        seq![(0x80 + len) as u8]
    } else if len < 65536 {
        seq![0xdeu8] + be_bytes2(len as u16)
    } else {
        seq![0xdfu8] + be_bytes4(len as u32)
    }
}

/// The head of an extension of type `t` with `len` bytes: fixext 1, 2, 4,
/// 8 or 16, otherwise ext 8, 16 or 32.
pub open spec fn ext_header(len: nat, t: i8) -> Seq<u8> {
    if len == 1 {
        seq![0xd4u8, t as u8]
    } else if len == 2 {
        seq![0xd5u8, t as u8]
    } else if len == 4 {
        seq![0xd6u8, t as u8]
    } else if len == 8 {
        seq![0xd7u8, t as u8]
    } else if len == 16 {
        seq![0xd8u8, t as u8]
    } else if len < 256 {
        seq![0xc7u8, len as u8, t as u8]
    } else if len < 65536 {
        seq![0xc8u8] + be_bytes2(len as u16) + seq![t as u8]
    } else {
        seq![0xc9u8] + be_bytes4(len as u32) + seq![t as u8]
    }
}

/// The encodings of the items of an array, in order.
pub open spec fn item_parts(a: Seq<Msg>) -> Seq<Seq<u8>>
    decreases a, 0nat,
{
    Seq::new(a.len(), |i: int| if 0 <= i < a.len() { encoding(a[i]) } else { Seq::empty() })
}

/// The encodings of the entries of a map, key then value, in order.
pub open spec fn entry_parts(es: Seq<(Msg, Msg)>) -> Seq<Seq<u8>>
    decreases es, 0nat,
{
    Seq::new(
        es.len(),
        |i: int| if 0 <= i < es.len() { encoding(es[i].0) + encoding(es[i].1) } else { Seq::empty() },
    )
}

/// The bytes of a value in the stored format.
pub open spec fn encoding(m: Msg) -> Seq<u8>
    decreases m, 1nat,
{
    match m {
        Msg::Nil => seq![0xc0u8],
        Msg::Integer(n) => match n {
            Some(x) => int_bytes(x),
            None => Seq::empty(),
        },
        Msg::Str(s) => match s {
            Some(t) => str_header(encode_utf8(t).len()) + encode_utf8(t),
            None => Seq::empty(),
        },
        Msg::Array(a) => array_header(a.len()) + item_parts(a).flatten(),
        Msg::Entries(es) => map_header(es.len()) + entry_parts(es).flatten(),
        Msg::Ext(t, d) => ext_header(d.len(), t) + d,
        _ => Seq::empty(),
    }
}

/// Whether a value can be written: it is made of nil, integers, valid
/// strings, arrays, maps and extensions, and every length fits the 32-bit
/// length fields of the format.
pub open spec fn encodable(m: Msg) -> bool
    decreases m,
{
    match m {
        Msg::Nil => true,
        Msg::Integer(n) => n is Some,
        Msg::Str(s) => s matches Some(t) && encode_utf8(t).len() <= u32::MAX,
        Msg::Array(a) => {
            &&& a.len() <= u32::MAX
            &&& forall|i: int| 0 <= i < a.len() ==> encodable(#[trigger] a[i])
        },
        Msg::Entries(es) => {
            &&& es.len() <= u32::MAX
            &&& forall|i: int| 0 <= i < es.len() ==> encodable(#[trigger] es[i].0) && encodable(es[i].1)
        },
        Msg::Ext(_, d) => d.len() <= u32::MAX,
        _ => false,
    }
}

/// A value that can be read back can be written.
pub proof fn lemma_fits_encodable(m: Msg, depth: nat)
    requires
        msg_fits(m, depth),
    ensures
        encodable(m),
    decreases m,
{
    match m {
        Msg::Array(a) => {
            assert forall|i: int| 0 <= i < a.len() implies encodable(#[trigger] a[i]) by {
                lemma_fits_encodable(a[i], (depth - 1) as nat);
            }
        },
        Msg::Entries(es) => {
            assert forall|i: int| 0 <= i < es.len() implies encodable(#[trigger] es[i].0) && encodable(es[i].1) by {
                lemma_fits_encodable(es[i].0, (depth - 1) as nat);
                lemma_fits_encodable(es[i].1, (depth - 1) as nat);
            }
        },
        _ => {},
    }
}

fn push_bytes(buf: &mut Vec<u8>, b: &[u8])
    ensures
        final(buf)@ == old(buf)@ + b@,
{
    let ghost start = buf@;
    let mut i: usize = 0;
    while i < b.len()
        invariant
            i <= b.len(),
            buf@ == start + b@.take(i as int),
        decreases b.len() - i,
    {
        buf.push(b[i]);
        assert(b@.take(i as int + 1) =~= b@.take(i as int).push(b@[i as int]));
        i = i + 1;
    }
    assert(b@.take(b.len() as int) =~= b@);
}

fn push_be2(buf: &mut Vec<u8>, u: u16)
    ensures
        final(buf)@ == old(buf)@ + be_bytes2(u),
{
    buf.push((u >> 8u16) as u8);
    buf.push(u as u8);
}

fn push_be4(buf: &mut Vec<u8>, u: u32)
    ensures
        final(buf)@ == old(buf)@ + be_bytes4(u),
{
    buf.push((u >> 24u32) as u8);
    buf.push((u >> 16u32) as u8);
    buf.push((u >> 8u32) as u8);
    buf.push(u as u8);
}

fn push_be8(buf: &mut Vec<u8>, u: u64)
    ensures
        final(buf)@ == old(buf)@ + be_bytes8(u),
{
    buf.push((u >> 56u64) as u8);
    buf.push((u >> 48u64) as u8);
    buf.push((u >> 40u64) as u8);
    buf.push((u >> 32u64) as u8);
    buf.push((u >> 24u64) as u8);
    buf.push((u >> 16u64) as u8);
    buf.push((u >> 8u64) as u8);
    buf.push(u as u8);
}

/// Writes an integer in its shortest signed form.
pub fn push_int(buf: &mut Vec<u8>, n: i64)
    ensures
        final(buf)@ == old(buf)@ + int_bytes(n),
{
    if -32 <= n && n < 128 {
        buf.push(n as u8);
    } else if -128 <= n && n < 128 {
        buf.push(0xd0u8);
        buf.push(n as u8);
    } else if -32768 <= n && n < 32768 {
        buf.push(0xd1u8);
        push_be2(buf, n as u16);
    } else if -2147483648 <= n && n < 2147483648 {
        buf.push(0xd2u8);
        push_be4(buf, n as u32);
    } else {
        buf.push(0xd3u8);
        push_be8(buf, n as u64);
    }
}

fn push_str_header(buf: &mut Vec<u8>, len: usize)
    requires
        len <= u32::MAX,
    ensures
        final(buf)@ == old(buf)@ + str_header(len as nat),
{
    if len < 32 {
        buf.push(0xa0u8 + len as u8);
    } else if len < 256 {
        buf.push(0xd9u8);
        buf.push(len as u8);
    } else if len < 65536 {
        buf.push(0xdau8);
        push_be2(buf, len as u16);
    } else {
        buf.push(0xdbu8);
        push_be4(buf, len as u32);
    }
}

fn push_array_header(buf: &mut Vec<u8>, len: usize)
    requires
        len <= u32::MAX,
    ensures
        final(buf)@ == old(buf)@ + array_header(len as nat),
{
    if len < 16 {
        buf.push(0x90u8 + len as u8);
    } else if len < 65536 {
        buf.push(0xdcu8);
        push_be2(buf, len as u16);
    } else {
        buf.push(0xddu8);
        push_be4(buf, len as u32);
    }
}

fn push_map_header(buf: &mut Vec<u8>, len: usize)
    requires
        len <= u32::MAX,
    ensures
        final(buf)@ == old(buf)@ + map_header(len as nat),
{
    if len < 16 {
        buf.push(0x80u8 + len as u8);
    } else if len < 65536 {
        buf.push(0xdeu8);
        push_be2(buf, len as u16);
    } else {
        buf.push(0xdfu8);
        push_be4(buf, len as u32);
    }
}

fn push_ext_header(buf: &mut Vec<u8>, len: usize, t: i8)
    requires
        len <= u32::MAX,
    ensures
        final(buf)@ == old(buf)@ + ext_header(len as nat, t),
{
    if len == 1 {
        buf.push(0xd4u8);
    } else if len == 2 {
        buf.push(0xd5u8);
    } else if len == 4 {
        buf.push(0xd6u8);
    } else if len == 8 {
        buf.push(0xd7u8);
    } else if len == 16 {
        buf.push(0xd8u8);
    } else if len < 256 {
        buf.push(0xc7u8);
        buf.push(len as u8);
    } else if len < 65536 {
        buf.push(0xc8u8);
        push_be2(buf, len as u16);
    } else {
        buf.push(0xc9u8);
        push_be4(buf, len as u32);
    }
    buf.push(t as u8);
}

proof fn lemma_out_views(m: &MsgOut)
    ensures
        m matches MsgOut::Array(a) ==> m@ == Msg::Array(a@.map_values(|e: MsgOut| e@)),
        m matches MsgOut::Entries(es) ==> m@ == Msg::Entries(es@.map_values(|e: (MsgOut, MsgOut)| (e.0@, e.1@))),
{
    reveal_with_fuel(<MsgOut as View>::view, 2);
    match m {
        MsgOut::Array(a) => {
            assert(items_of_msg(m@) =~= a@.map_values(|e: MsgOut| e@));
        },
        MsgOut::Entries(es) => {
            assert(entries_of_msg(m@) =~= es@.map_values(|e: (MsgOut, MsgOut)| (e.0@, e.1@)));
        },
        _ => {},
    }
}

spec fn items_of_msg(m: Msg) -> Seq<Msg> {
    match m {
        Msg::Array(a) => a,
        _ => Seq::empty(),
    }
}

spec fn entries_of_msg(m: Msg) -> Seq<(Msg, Msg)> {
    match m {
        Msg::Entries(es) => es,
        _ => Seq::empty(),
    }
}

/// Appends the stored form of `m` to `buf`. `false` exactly when a length
/// does not fit the format; `buf` then holds part of the value.
pub fn write_msg(m: &MsgOut, buf: &mut Vec<u8>) -> (ok: bool)
    ensures
        ok == encodable(m@),
        ok ==> final(buf)@ == old(buf)@ + encoding(m@),
    decreases m,
{
    proof {
        lemma_out_views(m);
    }
    match m {
        MsgOut::Nil => {
            buf.push(0xc0u8);
            true
        },
        MsgOut::Int(n) => {
            push_int(buf, *n);
            true
        },
        MsgOut::Str(s) => {
            let b = s.as_str().as_bytes();
            if b.len() > 4294967295usize {
                false
            } else {
                push_str_header(buf, b.len());
                push_bytes(buf, b);
                true
            }
        },
        MsgOut::Ext(t, d) => {
            if d.len() > 4294967295usize {
                false
            } else {
                push_ext_header(buf, d.len(), *t);
                push_bytes(buf, d.as_slice());
                true
            }
        },
        MsgOut::Array(a) => {
            if a.len() > 4294967295usize {
                return false;
            }
            let ghost items = a@.map_values(|e: MsgOut| e@);
            let ghost start = buf@;
            push_array_header(buf, a.len());
            let mut i: usize = 0;
            while i < a.len()
                invariant
                    i <= a.len(),
                    items == a@.map_values(|e: MsgOut| e@),
                    *m == MsgOut::Array(*a),
                    m@ == Msg::Array(items),
                    a.len() <= u32::MAX,
                    buf@ == start + array_header(a.len() as nat) + item_parts(items).take(i as int).flatten(),
                    forall|j: int| 0 <= j < i ==> encodable(#[trigger] items[j]),
                decreases a.len() - i,
            {
                proof {
                    assert(decreases_to!(*m => a));
                    assert(decreases_to!(a => a@));
                    assert(decreases_to!(a@ => a@[i as int]));
                    assert(items[i as int] == a@[i as int]@);
                }
                if !write_msg(&a[i], buf) {
                    return false;
                }
                proof {
                    let parts = item_parts(items);
                    assert(parts.take(i as int + 1) =~= parts.take(i as int).push(parts[i as int]));
                    parts.take(i as int).lemma_flatten_push(parts[i as int]);
                }
                i = i + 1;
            }
            assert(item_parts(items).take(a.len() as int) =~= item_parts(items));
            true
        },
        MsgOut::Entries(es) => {
            if es.len() > 4294967295usize {
                return false;
            }
            let ghost entries = es@.map_values(|e: (MsgOut, MsgOut)| (e.0@, e.1@));
            let ghost start = buf@;
            push_map_header(buf, es.len());
            let mut i: usize = 0;
            while i < es.len()
                invariant
                    i <= es.len(),
                    entries == es@.map_values(|e: (MsgOut, MsgOut)| (e.0@, e.1@)),
                    *m == MsgOut::Entries(*es),
                    m@ == Msg::Entries(entries),
                    es.len() <= u32::MAX,
                    buf@ == start + map_header(es.len() as nat) + entry_parts(entries).take(i as int).flatten(),
                    forall|j: int| 0 <= j < i ==> encodable(#[trigger] entries[j].0) && encodable(entries[j].1),
                decreases es.len() - i,
            {
                proof {
                    assert(decreases_to!(*m => es));
                    assert(decreases_to!(es => es@));
                    assert(decreases_to!(es@ => es@[i as int]));
                    assert(decreases_to!(es@[i as int] => es@[i as int].0));
                    assert(decreases_to!(es@[i as int] => es@[i as int].1));
                    assert(entries[i as int] == (es@[i as int].0@, es@[i as int].1@));
                }
                if !write_msg(&es[i].0, buf) {
                    assert(!encodable(entries[i as int].0));
                    return false;
                }
                if !write_msg(&es[i].1, buf) {
                    assert(encodable(entries[i as int].0) && !encodable(entries[i as int].1));
                    return false;
                }
                assert(encodable(entries[i as int].0) && encodable(entries[i as int].1));
                proof {
                    let parts = entry_parts(entries);
                    assert(parts.take(i as int + 1) =~= parts.take(i as int).push(parts[i as int]));
                    parts.take(i as int).lemma_flatten_push(parts[i as int]);
                }
                i = i + 1;
            }
            assert(entry_parts(entries).take(es.len() as int) =~= entry_parts(entries));
            true
        },
    }
}

} // verus!
