//! The binary encoding's building blocks: item heads, integers in network
//! order, and the calls into minicbor and bytes that read and write them.
use vstd::prelude::*;
use vstd::utf8::*;
use minicbor::data::Type;
use minicbor::{Decoder, Encoder};
use bytes::BufMut;

verus! {

/// The number that the bytes of `s` spell in network (big-endian) order.
pub open spec fn be_value(s: Seq<u8>) -> nat
    decreases s.len(),
{
    if s.len() == 0 {
        0
    } else {
        be_value(s.drop_last()) * 256 + s.last() as nat
    }
}

/// The `n` low-order bytes of `x` in network (big-endian) order.
pub open spec fn be_bytes(x: nat, n: nat) -> Seq<u8>
    decreases n,
{
    if n == 0 {
        Seq::empty()
    } else {
        be_bytes(x / 256, (n - 1) as nat).push((x % 256) as u8)
    }
}

/// The shortest item head of major type `major` that carries `arg`.
pub open spec fn head(major: nat, arg: nat) -> Seq<u8> {
    let t = major * 32;
    if arg < 24 {
        seq![(t + arg) as u8]
    } else if arg < 0x100 {
        seq![(t + 24) as u8, arg as u8]
    } else if arg < 0x1_0000 {
        seq![(t + 25) as u8] + be_bytes(arg, 2)
    } else if arg < 0x1_0000_0000 {
        seq![(t + 26) as u8] + be_bytes(arg, 4)
    } else {
        seq![(t + 27) as u8] + be_bytes(arg, 8)
    }
}

/// How many bytes follow an initial byte whose low five bits are `info`
/// (negative: no argument of that form exists).
pub open spec fn arg_width(info: int) -> int {
    if info < 24 {
        0
    } else if info == 24 {
        1
    } else if info == 25 {
        2
    } else if info == 26 {
        4
    } else if info == 27 {
        8
    } else {
        -1
    }
}

/// The argument of the item head at `p`, and the position just after the head.
pub open spec fn head_arg(buf: Seq<u8>, p: int) -> Option<(nat, int)> {
    if 0 <= p < buf.len() {
        let info: int = buf[p] as int % 32;
        let w = arg_width(info);
        if w < 0 || p + 1 + w > buf.len() {
            None
        } else if w == 0 {
            Some((info as nat, p + 1))
        } else {
            Some((be_value(buf.subrange(p + 1, p + 1 + w)), p + 1 + w))
        }
    } else {
        None
    }
}

/// What an initial byte announces, as far as the value model tells items apart.
#[derive(Debug, Clone, Copy, PartialEq, Eq, Structural)]
pub enum CborKind {
    Unsigned,
    Negative,
    Narrow,
    Double,
    Bool,
    Null,
    Text,
    Array,
    Dict,
    Break,
    Other,
}

/// The kind of the item whose initial byte is `b` and whose next byte is `next`
/// (the next byte tells whether a 64-bit negative integer fits a signed 64-bit one).
pub open spec fn kind_of(b: u8, next: u8) -> CborKind {
    if b <= 0x1b {
        CborKind::Unsigned
    } else if 0x20 <= b <= 0x3a || (b == 0x3b && next < 0x80) {
        CborKind::Negative
    } else if 0x60 <= b <= 0x7b {
        CborKind::Text
    } else if 0x80 <= b <= 0x9b || b == 0x9f {
        CborKind::Array
    } else if 0xa0 <= b <= 0xbb || b == 0xbf {
        CborKind::Dict
    } else if b == 0xf4 || b == 0xf5 {
        CborKind::Bool
    } else if b == 0xf6 {
        CborKind::Null
    } else if b == 0xf9 || b == 0xfa {
        CborKind::Narrow
    } else if b == 0xfb {
        CborKind::Double
    } else if b == 0xff {
        CborKind::Break
    } else {
        CborKind::Other
    }
}

/// The kind of the item at `p`, if the bytes there suffice to tell it.
pub open spec fn kind_at(buf: Seq<u8>, p: int) -> Option<CborKind> {
    if !(0 <= p < buf.len()) {
        None
    } else if 0x38 <= buf[p] <= 0x3b && p + 1 >= buf.len() {
        None
    } else {
        Some(kind_of(buf[p], if p + 1 < buf.len() { buf[p + 1] } else { 0 }))
    }
}

/// Relies on minicbor's `Decoder::datatype`: the type of the item at the
/// decoder's position, told by its initial byte (and, for a 64-bit negative
/// integer, by the byte after it); an error when those bytes are missing.
#[verifier::external_body]
pub(crate) fn read_kind(buf: &[u8], pos: usize) -> (r: Result<CborKind, ()>)
    ensures
        match kind_at(buf@, pos as int) {
            Some(k) => r == Ok::<CborKind, ()>(k),
            None => r is Err,
        },
{
    let mut d = Decoder::new(buf);
    d.set_position(pos);
    Ok(match d.datatype().map_err(|_| ())? {
        Type::U8 | Type::U16 | Type::U32 | Type::U64 => CborKind::Unsigned,
        Type::I8 | Type::I16 | Type::I32 | Type::I64 => CborKind::Negative,
        Type::F16 | Type::F32 => CborKind::Narrow,
        Type::F64 => CborKind::Double,
        Type::Bool => CborKind::Bool,
        Type::Null => CborKind::Null,
        Type::String => CborKind::Text,
        Type::Array | Type::ArrayIndef => CborKind::Array,
        Type::Map | Type::MapIndef => CborKind::Dict,
        Type::Break => CborKind::Break,
        _ => CborKind::Other,
    })
}

/// Relies on minicbor's `Decoder::u64`: the unsigned integer whose head is at
/// `pos`, and the position after it; an error when the head is cut short.
#[verifier::external_body]
pub(crate) fn read_u64(buf: &[u8], pos: usize) -> (r: Result<(u64, usize), ()>)
    requires
        pos < buf@.len(),
        buf@[pos as int] <= 0x1b,
    ensures
        match head_arg(buf@, pos as int) {
            Some((a, e)) => r is Ok && r->Ok_0.0 == a && r->Ok_0.1 == e,
            None => r is Err,
        },
{
    let mut d = Decoder::new(buf);
    d.set_position(pos);
    match d.u64() {
        Ok(v) => Ok((v, d.position())),
        Err(_) => Err(()),
    }
}

/// Relies on minicbor's `Decoder::i64`: the negative integer `-1 - a` whose
/// head at `pos` carries `a`, when it fits a signed 64-bit integer.
#[verifier::external_body]
pub(crate) fn read_negative(buf: &[u8], pos: usize) -> (r: Result<(i64, usize), ()>)
    requires
        pos < buf@.len(),
        0x20 <= buf@[pos as int] <= 0x3b,
    ensures
        match head_arg(buf@, pos as int) {
            Some((a, e)) => if a < 0x8000_0000_0000_0000 {
                r is Ok && r->Ok_0.0 == -1 - a && r->Ok_0.1 == e
            } else {
                r is Err
            },
            None => r is Err,
        },
{
    let mut d = Decoder::new(buf);
    d.set_position(pos);
    match d.i64() {
        Ok(v) => Ok((v, d.position())),
        Err(_) => Err(()),
    }
}

/// Relies on minicbor's `Decoder::str`: the definite-length text whose head is
/// at `pos`; an error when the bytes are cut short or are not UTF-8.
#[verifier::external_body]
pub(crate) fn read_text(buf: &[u8], pos: usize) -> (r: Result<(String, usize), ()>)
    requires
        pos < buf@.len(),
        0x60 <= buf@[pos as int] <= 0x7b,
    ensures
        match head_arg(buf@, pos as int) {
            Some((n, e)) => if e + n <= buf@.len() && valid_utf8(buf@.subrange(e, e + n)) {
                &&& r is Ok
                &&& encode_utf8(r->Ok_0.0@) == buf@.subrange(e, e + n)
                &&& r->Ok_0.1 == e + n
            } else {
                r is Err
            },
            None => r is Err,
        },
{
    let mut d = Decoder::new(buf);
    d.set_position(pos);
    match d.str() {
        Ok(s) => Ok((String::from(s), d.position())),
        Err(_) => Err(()),
    }
}

/// Relies on minicbor's `Decoder::array`: the element count that the array head
/// at `pos` declares (`None` for an array closed by a break), and the position
/// after the head.
#[verifier::external_body]
pub(crate) fn read_array_head(buf: &[u8], pos: usize) -> (r: Result<(Option<u64>, usize), ()>)
    requires
        pos < buf@.len(),
        0x80 <= buf@[pos as int] <= 0x9b || buf@[pos as int] == 0x9f,
    ensures
        buf@[pos as int] == 0x9f ==> r is Ok && r->Ok_0.0 is None && r->Ok_0.1 == pos + 1,
        buf@[pos as int] != 0x9f ==> (match head_arg(buf@, pos as int) {
            Some((a, e)) => r is Ok && r->Ok_0.0 is Some && r->Ok_0.0->Some_0 == a && r->Ok_0.1 == e,
            None => r is Err,
        }),
{
    let mut d = Decoder::new(buf);
    d.set_position(pos);
    match d.array() {
        Ok(n) => Ok((n, d.position())),
        Err(_) => Err(()),
    }
}

/// Relies on minicbor's `Decoder::map`: the entry count that the map head at
/// `pos` declares (`None` for a map closed by a break), and the position after
/// the head.
#[verifier::external_body]
pub(crate) fn read_map_head(buf: &[u8], pos: usize) -> (r: Result<(Option<u64>, usize), ()>)
    requires
        pos < buf@.len(),
        0xa0 <= buf@[pos as int] <= 0xbb || buf@[pos as int] == 0xbf,
    ensures
        buf@[pos as int] == 0xbf ==> r is Ok && r->Ok_0.0 is None && r->Ok_0.1 == pos + 1,
        buf@[pos as int] != 0xbf ==> (match head_arg(buf@, pos as int) {
            Some((a, e)) => r is Ok && r->Ok_0.0 is Some && r->Ok_0.0->Some_0 == a && r->Ok_0.1 == e,
            None => r is Err,
        }),
{
    let mut d = Decoder::new(buf);
    d.set_position(pos);
    match d.map() {
        Ok(n) => Ok((n, d.position())),
        Err(_) => Err(()),
    }
}

/// Appends the `n` low-order bytes of `x` in network order.
pub fn push_be(out: &mut Vec<u8>, x: u64, n: usize)
    requires
        n <= 8,
    ensures
        final(out)@ == old(out)@ + be_bytes(x as nat, n as nat),
    decreases n,
{
    if n > 0 {
        push_be(out, x / 256, n - 1);
        out.push((x % 256) as u8);
        assert(out@ =~= old(out)@ + be_bytes(x as nat, n as nat));
    } else {
        assert(out@ =~= old(out)@ + be_bytes(x as nat, n as nat));
    }
}

/// Relies on bytes' `BufMut::put_u16` for `Vec<u8>`: appends `x` as two bytes
/// in network order.
#[verifier::external_body]
pub(crate) fn put_u16_be(out: &mut Vec<u8>, x: u16)
    ensures
        final(out)@ == old(out)@ + be_bytes(x as nat, 2),
{
    out.put_u16(x)
}

/// Relies on minicbor's `Encoder::u64`: appends the shortest head of major
/// type 0 that carries `x`.
#[verifier::external_body]
pub(crate) fn write_u64(out: &mut Vec<u8>, x: u64)
    ensures
        final(out)@ == old(out)@ + head(0, x as nat),
{
    let _ = Encoder::new(out).u64(x);
}

/// Relies on minicbor's `Encoder::i64`: a non-negative `x` as an unsigned
/// integer, a negative one as the head of major type 1 that carries `-1 - x`.
#[verifier::external_body]
pub(crate) fn write_i64(out: &mut Vec<u8>, x: i64)
    ensures
        x >= 0 ==> final(out)@ == old(out)@ + head(0, x as nat),
        x < 0 ==> final(out)@ == old(out)@ + head(1, (-1 - x) as nat),
{
    let _ = Encoder::new(out).i64(x);
}

/// Relies on minicbor's `Encoder::bool`: appends 0xf5 for true, 0xf4 for false.
#[verifier::external_body]
pub(crate) fn write_bool(out: &mut Vec<u8>, x: bool)
    ensures
        final(out)@ == old(out)@.push(if x { 0xf5u8 } else { 0xf4u8 }),
{
    let _ = Encoder::new(out).bool(x);
}

/// Relies on minicbor's `Encoder::null`: appends the null marker 0xf6.
#[verifier::external_body]
pub(crate) fn write_null(out: &mut Vec<u8>)
    ensures
        final(out)@ == old(out)@.push(0xf6u8),
{
    let _ = Encoder::new(out).null();
}

/// Relies on minicbor's `Encoder::str`: appends a text head carrying the length
/// of the UTF-8 form of `s`, then that form.
#[verifier::external_body]
pub(crate) fn write_text(out: &mut Vec<u8>, s: &str)
    ensures
        final(out)@ == old(out)@ + head(3, encode_utf8(s@).len()) + encode_utf8(s@),
{
    let _ = Encoder::new(out).str(s);
}

/// Relies on minicbor's `Encoder::array`: appends the head of an array of `n`
/// elements.
#[verifier::external_body]
pub(crate) fn write_array_head(out: &mut Vec<u8>, n: u64)
    ensures
        final(out)@ == old(out)@ + head(4, n as nat),
{
    let _ = Encoder::new(out).array(n);
}

/// Relies on minicbor's `Encoder::map`: appends the head of a map of `n`
/// entries.
#[verifier::external_body]
pub(crate) fn write_map_head(out: &mut Vec<u8>, n: u64)
    ensures
        final(out)@ == old(out)@ + head(5, n as nat),
{
    let _ = Encoder::new(out).map(n);
}


/// 256 to the power `n`.
pub open spec fn pow256(n: nat) -> nat
    decreases n,
{
    if n == 0 {
        1
    } else {
        256 * pow256((n - 1) as nat)
    }
}

pub proof fn lemma_be_value_bound(s: Seq<u8>)
    ensures
        be_value(s) < pow256(s.len()),
    decreases s.len(),
{
    if s.len() > 0 {
        let d = s.drop_last();
        lemma_be_value_bound(d);
        let a = be_value(d);
        let b = pow256(d.len());
        assert(a * 256 + s.last() < b * 256) by (nonlinear_arith)
            requires
                a < b,
                s.last() < 256,
        ;
    }
}

/// An argument read from a head fits 64 bits, and the head lies within the buffer.
pub proof fn lemma_head_arg_bound(buf: Seq<u8>, p: int)
    ensures
        head_arg(buf, p) matches Some((a, e)) ==> a < 0x1_0000_0000_0000_0000 && p < e <= buf.len(),
{
    if let Some((a, e)) = head_arg(buf, p) {
        let info: int = buf[p] as int % 32;
        let w = arg_width(info);
        if w > 0 {
            let s = buf.subrange(p + 1, p + 1 + w);
            lemma_be_value_bound(s);
            reveal_with_fuel(pow256, 9);
            assert(pow256(8) == 0x1_0000_0000_0000_0000);
        }
    }
}


pub proof fn lemma_be_bytes_len(x: nat, n: nat)
    ensures
        be_bytes(x, n).len() == n,
    decreases n,
{
    if n > 0 {
        lemma_be_bytes_len(x / 256, (n - 1) as nat);
    }
}

/// Reading back the bytes written in network order gives the number written.
pub proof fn lemma_be_round_trip(x: nat, n: nat)
    requires
        x < pow256(n),
    ensures
        be_value(be_bytes(x, n)) == x,
        be_bytes(x, n).len() == n,
    decreases n,
{
    lemma_be_bytes_len(x, n);
    if n > 0 {
        let q = x / 256;
        let m = (n - 1) as nat;
        assert(q < pow256(m)) by (nonlinear_arith)
            requires
                x < 256 * pow256(m),
                q == x / 256,
        ;
        lemma_be_round_trip(q, m);
        let s = be_bytes(x, n);
        assert(s.drop_last() =~= be_bytes(q, m));
        assert(x == q * 256 + x % 256);
    }
}


/// The value of two bytes in network order.
pub proof fn lemma_be_value_2(s: Seq<u8>)
    requires
        s.len() == 2,
    ensures
        be_value(s) == s[0] as nat * 256 + s[1] as nat,
{
    reveal_with_fuel(be_value, 3);
    assert(s.drop_last() =~= seq![s[0]]);
    assert(seq![s[0]].drop_last() =~= Seq::<u8>::empty());
}

/// The value of four bytes in network order.
pub proof fn lemma_be_value_4(s: Seq<u8>)
    requires
        s.len() == 4,
    ensures
        be_value(s) == ((s[0] as nat * 256 + s[1] as nat) * 256 + s[2] as nat) * 256 + s[3] as nat,
{
    let t = s.drop_last();
    let u = t.drop_last();
    assert(u =~= s.subrange(0, 2));
    lemma_be_value_2(u);
    assert(be_value(t) == be_value(u) * 256 + t.last() as nat);
    assert(be_value(s) == be_value(t) * 256 + s.last() as nat);
    assert(t.last() == s[2] && s.last() == s[3] && u[0] == s[0] && u[1] == s[1]);
}


/// Reads the first eight bytes of `b` in network order.
pub fn read_u64_be(b: &[u8]) -> (r: u64)
    requires
        b@.len() >= 8,
    ensures
        r as nat == be_value(b@.subrange(0, 8)),
{
    let mut acc: u64 = 0;
    let mut i: usize = 0;
    proof {
        assert(b@.subrange(0, 0) =~= Seq::<u8>::empty());
    }
    while i < 8
        invariant
            i <= 8,
            b@.len() >= 8,
            acc as nat == be_value(b@.subrange(0, i as int)),
        decreases 8 - i,
    {
        proof {
            lemma_be_value_bound(b@.subrange(0, i as int));
            reveal_with_fuel(pow256, 8);
            assert(acc < pow256(7)) by {
                if i < 7 {
                    lemma_pow256_mono(i as nat, 7);
                }
            }
            assert(b@.subrange(0, i + 1).drop_last() =~= b@.subrange(0, i as int));
        }
        acc = acc * 256 + b[i] as u64;
        i = i + 1;
    }
    acc
}

proof fn lemma_pow256_mono(a: nat, b: nat)
    requires
        a <= b,
    ensures
        pow256(a) <= pow256(b),
    decreases b,
{
    if a < b {
        lemma_pow256_mono(a, (b - 1) as nat);
    }
}

} // verus!
