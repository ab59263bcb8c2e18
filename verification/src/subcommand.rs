use vstd::prelude::*;

use crate::error::MalformedConfigPairError;
use crate::literal::{find_either, first_index, i64_literal, is_float_literal, parse_i64, parses_as_float};

verus! {

/// The value of a `key=value` argument, read as the most specific kind it fits:
/// an `i64`, else a float (kept as its text), else plain text.
#[derive(Debug, PartialEq, Eq)]
pub enum ConfigArgValue {
    Integer(i64),
    Float(String),
    Text(String),
}

/// A `key=value` configuration argument, with the MessagePack encoding of its
/// value where that value is an integer or text. A float is encoded by the
/// caller, which can hold it as a floating-point number.
#[derive(Debug, PartialEq, Eq)]
pub struct ConfigArg {
    pub key: String,
    pub value: ConfigArgValue,
    pub packed: Option<Vec<u8>>,
}

/// The `n` low bytes of `v`, most significant first; for a negative `v` these
/// are the bytes of its two's complement.
pub open spec fn be_bytes(v: int, n: nat) -> Seq<u8>
    decreases n,
{
    if n == 0 {
        Seq::empty()
    } else {
        be_bytes(v / 256, (n - 1) as nat).push((v % 256) as u8)
    }
}

/// The MessagePack form of an `i64`: the shortest one, a single byte for
/// -32..127, else a marker and the big-endian bytes of the smallest signed
/// (negative values) or unsigned (positive values) width that holds it.
pub open spec fn msgpack_i64(n: i64) -> Seq<u8> {
    if -32 <= n < 0 {
        seq![(n + 256) as u8]
    } else if -128 <= n < -32 {
        seq![0xd0u8] + be_bytes(n as int, 1)
    } else if -32768 <= n < -128 {
        seq![0xd1u8] + be_bytes(n as int, 2)
    } else if -2147483648 <= n < -32768 {
        seq![0xd2u8] + be_bytes(n as int, 4)
    } else if n < -2147483648 {
        seq![0xd3u8] + be_bytes(n as int, 8)
    } else if n < 128 {
        seq![n as u8]
    } else if n < 256 {
        seq![0xccu8, n as u8]
    } else if n < 65536 {
        seq![0xcdu8] + be_bytes(n as int, 2)
    } else if n < 4294967296 {
        seq![0xceu8] + be_bytes(n as int, 4)
    } else {
        seq![0xcfu8] + be_bytes(n as int, 8)
    }
}

/// The UTF-8 bytes of a character.
pub open spec fn utf8_char(c: char) -> Seq<u8> {
    let x = c as int;
    if x < 0x80 {
        seq![x as u8]
    } else if x < 0x800 {
        seq![(0xc0 + x / 64) as u8, (0x80 + x % 64) as u8]
    } else if x < 0x10000 {
        seq![(0xe0 + x / 4096) as u8, (0x80 + (x / 64) % 64) as u8, (0x80 + x % 64) as u8]
    } else {
        seq![
            (0xf0 + x / 262144) as u8,
            (0x80 + (x / 4096) % 64) as u8,
            (0x80 + (x / 64) % 64) as u8,
            (0x80 + x % 64) as u8,
        ]
    }
}

/// The UTF-8 bytes of a text.
pub open spec fn utf8(s: Seq<char>) -> Seq<u8>
    decreases s.len(),
{
    if s.len() == 0 {
        Seq::empty()
    } else {
        utf8(s.drop_last()) + utf8_char(s.last())
    }
}

/// The MessagePack form of a text: a header with the byte length (taken as a
/// 32-bit number), in the shortest of the four string forms, then the UTF-8 bytes.
pub open spec fn msgpack_str(s: Seq<char>) -> Seq<u8> {
    let b = utf8(s);
    let len = b.len() % 4294967296;
    let head = if len < 32 {
        seq![(0xa0 + len) as u8]
    } else if len < 256 {
        seq![0xd9u8, len as u8]
    } else if len < 65536 {
        seq![0xdau8] + be_bytes(len as int, 2)
    } else {
        seq![0xdbu8] + be_bytes(len as int, 4)
    };
    head + b
}

/// `rmp_serde::to_vec` on an `i64`: rmp's `write_sint` picks the shortest form.
/// The encoder writes into a growable buffer and reports an error only when that
/// buffer cannot grow, an allocation failure that is not stated here.
#[verifier::external_body]
fn pack_i64(n: i64) -> (r: Vec<u8>)
    ensures
        r@ == msgpack_i64(n),
{
    rmp_serde::to_vec(&n).unwrap()
}

/// `rmp_serde::to_vec` on a `str`: rmp's `write_str` writes the length header
/// for `len as u32` and then the text's UTF-8 bytes. As for integers, only an
/// allocation failure makes it fail, and that is not stated here.
#[verifier::external_body]
fn pack_str(s: &str) -> (r: Vec<u8>)
    ensures
        r@ == msgpack_str(s@),
{
    rmp_serde::to_vec(s).unwrap()
}

/// The encoding that a value carries: MessagePack for an integer or a text, none
/// for a float.
pub open spec fn value_packing(v: ConfigArgValue) -> Option<Seq<u8>> {
    match v {
        ConfigArgValue::Integer(n) => Some(msgpack_i64(n)),
        ConfigArgValue::Float(_) => None,
        ConfigArgValue::Text(x) => Some(msgpack_str(x@)),
    }
}

/// The bytes of an optional encoding.
pub open spec fn packed_view(p: Option<Vec<u8>>) -> Option<Seq<u8>> {
    match p {
        Some(b) => Some(b@),
        None => None,
    }
}

/// The MessagePack encoding of an integer or text value; none for a float.
pub fn pack_value(v: &ConfigArgValue) -> (r: Option<Vec<u8>>)
    ensures
        packed_view(r) == value_packing(*v),
{
    match v {
        ConfigArgValue::Integer(n) => Some(pack_i64(*n)),
        ConfigArgValue::Float(_) => None,
        ConfigArgValue::Text(x) => Some(pack_str(x.as_str())),
    }
}

/// The key and value of `key=value`; text without `=` is a key with an empty
/// value, and text with two or more `=` has none.
pub open spec fn split_pair(s: Seq<char>) -> Option<(Seq<char>, Seq<char>)> {
    let e = first_index(s, '=', '=');
    if e < 0 {
        Some((s, Seq::empty()))
    } else if first_index(s.skip(e + 1), '=', '=') >= 0 {
        None
    } else {
        Some((s.take(e), s.skip(e + 1)))
    }
}

/// `v` is what the text `t` reads as.
pub open spec fn value_reads_as(v: ConfigArgValue, t: Seq<char>) -> bool {
    match v {
        ConfigArgValue::Integer(n) => i64_literal(t) == Some(n as int),
        ConfigArgValue::Float(f) => i64_literal(t) is None && is_float_literal(t) && f@ == t,
        ConfigArgValue::Text(x) => i64_literal(t) is None && !is_float_literal(t) && x@ == t,
    }
}

/// `a` is what the argument text `s` reads as.
pub open spec fn arg_reads_as(a: ConfigArg, s: Seq<char>) -> bool {
    match split_pair(s) {
        Some((k, v)) => a.key@ == k && value_reads_as(a.value, v) && packed_view(a.packed) == value_packing(a.value),
        None => false,
    }
}

fn substring(cs: &Vec<char>, lo: usize, hi: usize) -> (r: String)
    requires
        lo <= hi <= cs.len(),
    ensures
        r@ == cs@.subrange(lo as int, hi as int),
{
    let mut r = String::new();
    let mut i = lo;
    while i < hi
        invariant
            lo <= i <= hi <= cs.len(),
            r@ == cs@.subrange(lo as int, i as int),
        decreases hi - i,
    {
        r.push(cs[i]);
        assert(cs@.subrange(lo as int, i + 1) =~= cs@.subrange(lo as int, i as int).push(cs@[i as int]));
        i = i + 1;
    }
    r
}

/// Reads the value text of an argument.
pub fn read_value(t: String) -> (r: ConfigArgValue)
    ensures
        value_reads_as(r, t@),
{
    match parse_i64(t.as_str()) {
        Some(n) => ConfigArgValue::Integer(n),
        None => {
            if parses_as_float(t.as_str()) {
                ConfigArgValue::Float(t)
            } else {
                ConfigArgValue::Text(t)
            }
        },
    }
}

/// Reads one `key=value` argument; `None` when it holds more than one `=`.
pub fn parse_config_pair(conf: &str) -> (r: Option<ConfigArg>)
    ensures
        (r is Some) == (split_pair(conf@) is Some),
        r matches Some(a) ==> arg_reads_as(a, conf@),
{
    let cs = crate::text::chars_of(conf);
    assert(cs@.subrange(0, cs.len() as int) =~= conf@);
    match find_either(&cs, 0, cs.len(), '=', '=') {
        None => {
            let key = substring(&cs, 0, cs.len());
            let value = read_value(String::new());
            assert(value_reads_as(value, Seq::<char>::empty()));
            let packed = pack_value(&value);
            Some(ConfigArg { key, value, packed })
        },
        Some(e) => {
            let ghost s = conf@;
            assert(s.skip(e + 1) =~= cs@.subrange(e + 1, cs.len() as int));
            match find_either(&cs, e + 1, cs.len(), '=', '=') {
                Some(_) => None,
                None => {
                    assert(s.take(e as int) =~= cs@.subrange(0, e as int));
                    let key = substring(&cs, 0, e);
                    let text = substring(&cs, e + 1, cs.len());
                    let value = read_value(text);
                    let packed = pack_value(&value);
                    Some(ConfigArg { key, value, packed })
                },
            }
        },
    }
}

/// Reads `key=value` configuration arguments in order, each with the MessagePack
/// encoding of an integer or text value; the first argument that holds more
/// than one `=` is reported.
pub fn parse_config_list(confs: &Vec<&str>) -> (r: Result<Vec<ConfigArg>, MalformedConfigPairError>)
    ensures
        (r is Ok) == (forall|i: int| 0 <= i < confs.len() ==> split_pair(#[trigger] confs@[i]@) is Some),
        r matches Ok(v) ==> v.len() == confs.len() && forall|i: int|
            0 <= i < confs.len() ==> arg_reads_as(#[trigger] v@[i], confs@[i]@),
        r matches Err(e) ==> exists|i: int|
            0 <= i < confs.len() && split_pair(#[trigger] confs@[i]@) is None && e.config@ == confs@[i]@
                && forall|j: int| 0 <= j < i ==> split_pair(#[trigger] confs@[j]@) is Some,
{
    let mut res: Vec<ConfigArg> = Vec::new();
    let mut i: usize = 0;
    while i < confs.len()
        invariant
            i <= confs.len(),
            res.len() == i,
            forall|j: int| 0 <= j < i ==> split_pair(#[trigger] confs@[j]@) is Some,
            forall|j: int| 0 <= j < i ==> arg_reads_as(#[trigger] res@[j], confs@[j]@),
        decreases confs.len() - i,
    {
        match parse_config_pair(confs[i]) {
            Some(a) => {
                res.push(a);
            },
            None => {
                return Err(MalformedConfigPairError { config: String::from_str(confs[i]) });
            },
        }
        i = i + 1;
    }
    Ok(res)
}

} // verus!
