//! What the encoder and the decoder promise together: decoding an encoding
//! gives the value back, and every array or map of a decoded value can be
//! decoded again from the position it recorded.
use vstd::prelude::*;
use vstd::utf8::*;
use crate::cbor::{
    lemma_head_arg_bound, be_bytes, be_value, head, head_arg, kind_at, lemma_be_round_trip, lemma_be_bytes_len, pow256,
    CborKind,
};
use crate::serialization::{
    decode_entries, decode_entries_indef, decode_entry, decode_item, decode_items,
    decode_items_indef, decode_key, decode_text, encoding, entries_encoding, has_key,
    items_encoding, text_encoding, unique_keys, WampValue,
};

verus! {

/// What a value says once the encoding has carried it: recorded positions are
/// set aside, and a non-negative signed integer is the unsigned integer of the
/// same value (the encoding has one form for both).
pub open spec fn shape(v: WampValue) -> WampValue
    decreases v,
{
    match v {
        WampValue::Int(i) => if i >= 0 {
            WampValue::UInt(i as nat)
        } else {
            v
        },
        WampValue::Array(items, _) => WampValue::Array(
            Seq::new(
                items.len(),
                |i: int|
                    if 0 <= i < items.len() {
                        shape(items[i])
                    } else {
                        WampValue::Null
                    },
            ),
            0,
        ),
        WampValue::Hash(entries, _) => WampValue::Hash(
            Seq::new(
                entries.len(),
                |i: int|
                    if 0 <= i < entries.len() {
                        (entries[i].0, shape(entries[i].1))
                    } else {
                        (Seq::empty(), WampValue::Null)
                    },
            ),
            0,
        ),
        _ => v,
    }
}

/// A valid value that the encoding carries: integers and lengths fit 64 bits,
/// the keys of every map (at every depth) are unique, and nothing is an
/// application's own pre-encoded item.
pub open spec fn plain(v: WampValue) -> bool
    decreases v,
{
    match v {
        WampValue::Float(_) => true,
        WampValue::Int(i) => -0x8000_0000_0000_0000 <= i < 0x8000_0000_0000_0000,
        WampValue::UInt(u) => u < 0x1_0000_0000_0000_0000,
        WampValue::Bool(_) => true,
        WampValue::Str(s) => encode_utf8(s).len() < 0x1_0000_0000_0000_0000,
        WampValue::Array(items, _) => items.len() < 0x1_0000_0000_0000_0000 && forall|i: int|
            0 <= i < items.len() ==> plain(#[trigger] items[i]),
        WampValue::Hash(entries, _) => {
            &&& entries.len() < 0x1_0000_0000_0000_0000
            &&& forall|i: int|
                0 <= i < entries.len() ==> plain(#[trigger] entries[i].1) && encode_utf8(
                    entries[i].0,
                ).len() < 0x1_0000_0000_0000_0000
            &&& forall|i: int, j: int|
                0 <= i < j < entries.len() ==> #[trigger] entries[i].0 != #[trigger] entries[j].0
        },
        WampValue::Serializable(_) => false,
        WampValue::Null => true,
    }
}

proof fn lemma_split(buf: Seq<u8>, p: int, a: Seq<u8>, b: Seq<u8>)
    requires
        0 <= p,
        p + a.len() + b.len() <= buf.len(),
        buf.subrange(p, p + a.len() + b.len()) == a + b,
    ensures
        buf.subrange(p, p + a.len()) == a,
        buf.subrange(p + a.len(), p + a.len() + b.len()) == b,
{
    assert(buf.subrange(p, p + a.len()) =~= (a + b).subrange(0, a.len() as int));
    assert(buf.subrange(p + a.len(), p + a.len() + b.len()) =~= (a + b).subrange(
        a.len() as int,
        (a.len() + b.len()) as int,
    ));
    assert((a + b).subrange(0, a.len() as int) =~= a);
    assert((a + b).subrange(a.len() as int, (a.len() + b.len()) as int) =~= b);
}

proof fn lemma_be_bytes_first(x: nat, n: nat)
    requires
        n >= 1,
        x < pow256(n),
    ensures
        be_bytes(x, n)[0] as nat == x / pow256((n - 1) as nat),
    decreases n,
{
    lemma_be_bytes_len(x, n);
    if n == 1 {
        assert(pow256(0) == 1);
    } else {
        let q = x / 256;
        let m = (n - 1) as nat;
        assert(q < pow256(m)) by (nonlinear_arith)
            requires
                x < 256 * pow256(m),
                q == x / 256,
        ;
        lemma_be_bytes_first(q, m);
        lemma_be_bytes_len(q, m);
        assert(be_bytes(x, n)[0] == be_bytes(q, m)[0]);
        let d = pow256((m - 1) as nat);
        assert(pow256(m) == 256 * d);
        assert(d > 0) by {
            lemma_pow256_positive((m - 1) as nat);
        }
        assert((x / 256) / d == x / (256 * d)) by {
            vstd::arithmetic::div_mod::lemma_div_denominator(x as int, 256, d as int);
        }
    }
}

proof fn lemma_pow256_positive(n: nat)
    ensures
        pow256(n) > 0,
    decreases n,
{
    if n > 0 {
        lemma_pow256_positive((n - 1) as nat);
    }
}

/// Reading a head back gives its argument, and its first byte tells its major type.
proof fn lemma_head_decode(buf: Seq<u8>, p: int, m: nat, a: nat)
    requires
        m <= 7,
        a < 0x1_0000_0000_0000_0000,
        0 <= p,
        p + head(m, a).len() <= buf.len(),
        buf.subrange(p, p + head(m, a).len()) == head(m, a),
    ensures
        head_arg(buf, p) == Some((a, p + head(m, a).len())),
        head(m, a).len() >= 1,
        buf[p] as int / 32 == m,
        buf[p] as int % 32 < 28,
        buf[p] as int % 32 >= 24 ==> p + 1 < buf.len(),
        buf[p] as int % 32 == 27 && a < 0x8000_0000_0000_0000 ==> buf[p + 1] < 0x80,
{
    reveal_with_fuel(pow256, 9);
    let h = head(m, a);
    assert(buf[p] == buf.subrange(p, p + h.len())[0]);
    if a < 24 {
        assert(h.len() == 1);
    } else if a < 0x100 {
        assert(h.len() == 2);
        assert(buf.subrange(p + 1, p + 2) =~= seq![a as u8]);
        reveal_with_fuel(be_value, 2);
        assert(seq![a as u8].drop_last() =~= Seq::<u8>::empty());
    } else if a < 0x1_0000 {
        lemma_be_round_trip(a, 2);
        lemma_split(buf, p, seq![(m * 32 + 25) as u8], be_bytes(a, 2));
    } else if a < 0x1_0000_0000 {
        lemma_be_round_trip(a, 4);
        lemma_split(buf, p, seq![(m * 32 + 26) as u8], be_bytes(a, 4));
    } else {
        lemma_be_round_trip(a, 8);
        lemma_split(buf, p, seq![(m * 32 + 27) as u8], be_bytes(a, 8));
        assert(buf[p + 1] == be_bytes(a, 8)[0]);
        if a < 0x8000_0000_0000_0000 {
            lemma_be_bytes_first(a, 8);
            assert(a / pow256(7) < 0x80) by (nonlinear_arith)
                requires
                    a < 0x8000_0000_0000_0000,
                    pow256(7) == 0x100_0000_0000_0000,
            ;
        }
    }
}

proof fn lemma_decode_text_encoding(buf: Seq<u8>, p: int, s: Seq<char>)
    requires
        encode_utf8(s).len() < 0x1_0000_0000_0000_0000,
        0 <= p,
        p + text_encoding(s).len() <= buf.len(),
        buf.subrange(p, p + text_encoding(s).len()) == text_encoding(s),
    ensures
        kind_at(buf, p) == Some(CborKind::Text),
        decode_text(buf, p) == Ok::<(Seq<char>, int), crate::errors::WampError>((s, p + text_encoding(s).len())),
        decode_key(buf, p) == Ok::<(Seq<char>, int), crate::errors::WampError>((s, p + text_encoding(s).len())),
        text_encoding(s).len() >= 1,
{
    let u = encode_utf8(s);
    let h = head(3, u.len());
    lemma_split(buf, p, h, u);
    lemma_head_decode(buf, p, 3, u.len());
    encode_utf8_valid_utf8(s);
    encode_utf8_decode_utf8(s);
}

proof fn lemma_encoding_nonempty(v: WampValue)
    requires
        plain(v),
    ensures
        encoding(v).len() >= 1,
{
    match v {
        WampValue::Int(i) => {
            assert(head(1, (-1 - i) as nat).len() >= 1);
            assert(head(0, i as nat).len() >= 1);
        },
        WampValue::UInt(u) => {
            assert(head(0, u).len() >= 1);
        },
        WampValue::Str(s) => {
            assert(head(3, encode_utf8(s).len()).len() >= 1);
        },
        WampValue::Array(items, _) => {
            assert(head(4, items.len()).len() >= 1);
        },
        WampValue::Hash(entries, _) => {
            assert(head(5, entries.len()).len() >= 1);
        },
        _ => {},
    }
}

/// Decoding, at `p`, a buffer that holds the encoding of a valid value there
/// (whatever comes before or after it) gives that value back as the encoding
/// carries it, and consumes exactly its encoding: the bytes after it are left
/// for the next item.
pub proof fn lemma_decode_encoding(buf: Seq<u8>, p: int, v: WampValue)
    requires
        plain(v),
        0 <= p,
        p + encoding(v).len() <= buf.len(),
        buf.subrange(p, p + encoding(v).len()) == encoding(v),
    ensures
        decode_item(buf, p) matches Ok((w, e)) && e == p + encoding(v).len() && shape(w)
            == shape(v),
    decreases v,
{
    let enc = encoding(v);
    assert(buf[p] == enc[0]) by {
        lemma_encoding_nonempty(v);
        assert(buf.subrange(p, p + enc.len())[0] == buf[p]);
    }
    match v {
        WampValue::Float(b) => {
            reveal_with_fuel(pow256, 9);
            lemma_be_round_trip(b as nat, 8);
            lemma_split(buf, p, seq![0xfbu8], be_bytes(b as nat, 8));
        },
        WampValue::Int(i) => {
            if i >= 0 {
                lemma_head_decode(buf, p, 0, i as nat);
            } else {
                lemma_head_decode(buf, p, 1, (-1 - i) as nat);
            }
        },
        WampValue::UInt(u) => {
            lemma_head_decode(buf, p, 0, u);
        },
        WampValue::Bool(b) => {},
        WampValue::Null => {},
        WampValue::Str(s) => {
            lemma_decode_text_encoding(buf, p, s);
        },
        WampValue::Array(items, off) => {
            let h = head(4, items.len());
            let body = items_encoding(items);
            lemma_split(buf, p, h, body);
            lemma_head_decode(buf, p, 4, items.len());
            lemma_decode_items_encoding(buf, p + h.len(), items);
            let (t, e) = decode_items(buf, p + h.len(), items.len())->Ok_0;
            assert(shape(WampValue::Array(t, p as nat))->Array_0 =~= shape(v)->Array_0);
        },
        WampValue::Hash(entries, off) => {
            let h = head(5, entries.len());
            let body = entries_encoding(entries);
            lemma_split(buf, p, h, body);
            lemma_head_decode(buf, p, 5, entries.len());
            assert forall|i: int| 0 <= i < entries.len() implies !has_key(
                Seq::<(Seq<char>, WampValue)>::empty(),
                #[trigger] entries[i].0,
            ) by {}
            assert forall|i: int| 0 <= i < entries.len() implies plain(#[trigger] entries[i].1)
                && encode_utf8(entries[i].0).len() < 0x1_0000_0000_0000_0000 by {
                let e = entries[i];
                assert(plain(e.1));
            }
            lemma_decode_entries_encoding(buf, p + h.len(), entries, Seq::empty());
            let (r, e) = decode_entries(buf, p + h.len(), entries.len(), Seq::empty())->Ok_0;
            assert forall|i: int| 0 <= i < entries.len() implies r[i].0 == entries[i].0 && shape(
                r[i].1,
            ) == shape(entries[i].1) by {
                assert(Seq::<(Seq<char>, WampValue)>::empty().len() + i == i);
                assert(r[Seq::<(Seq<char>, WampValue)>::empty().len() + i] == r[i]);
            }
            assert(shape(WampValue::Hash(r, p as nat))->Hash_0 =~= shape(v)->Hash_0);
        },
        WampValue::Serializable(_) => {},
    }
}

proof fn lemma_decode_items_encoding(buf: Seq<u8>, p: int, s: Seq<WampValue>)
    requires
        forall|i: int| 0 <= i < s.len() ==> plain(#[trigger] s[i]),
        0 <= p,
        p + items_encoding(s).len() <= buf.len(),
        buf.subrange(p, p + items_encoding(s).len()) == items_encoding(s),
    ensures
        decode_items(buf, p, s.len()) matches Ok((t, e)) && e == p + items_encoding(s).len()
            && t.len() == s.len() && forall|i: int|
            0 <= i < s.len() ==> shape(#[trigger] t[i]) == shape(s[i]),
    decreases s,
{
    if s.len() > 0 {
        let first = s[0];
        let rest = s.subrange(1, s.len() as int);
        let a = encoding(first);
        let b = items_encoding(rest);
        lemma_split(buf, p, a, b);
        lemma_encoding_nonempty(first);
        lemma_decode_encoding(buf, p, first);
        assert forall|i: int| 0 <= i < rest.len() implies plain(#[trigger] rest[i]) by {
            assert(rest[i] == s[i + 1]);
        }
        lemma_decode_items_encoding(buf, p + a.len(), rest);
        let (w, e1) = decode_item(buf, p)->Ok_0;
        let (t2, e2) = decode_items(buf, p + a.len(), rest.len())->Ok_0;
        assert((s.len() - 1) as nat == rest.len());
        let t = seq![w] + t2;
        assert forall|i: int| 0 <= i < s.len() implies shape(#[trigger] t[i]) == shape(s[i]) by {
            if i > 0 {
                assert(t[i] == t2[i - 1]);
                assert(s[i] == rest[i - 1]);
            }
        }
    }
}

proof fn lemma_decode_entries_encoding(
    buf: Seq<u8>,
    p: int,
    es: Seq<(Seq<char>, WampValue)>,
    acc: Seq<(Seq<char>, WampValue)>,
)
    requires
        forall|i: int|
            0 <= i < es.len() ==> plain(#[trigger] es[i].1) && encode_utf8(es[i].0).len()
                < 0x1_0000_0000_0000_0000,
        forall|i: int, j: int| 0 <= i < j < es.len() ==> #[trigger] es[i].0 != #[trigger] es[j].0,
        forall|i: int| 0 <= i < es.len() ==> !has_key(acc, #[trigger] es[i].0),
        0 <= p,
        p + entries_encoding(es).len() <= buf.len(),
        buf.subrange(p, p + entries_encoding(es).len()) == entries_encoding(es),
    ensures
        decode_entries(buf, p, es.len(), acc) matches Ok((r, e)) && e == p + entries_encoding(
            es,
        ).len() && r.len() == acc.len() + es.len() && r.subrange(0, acc.len() as int) == acc
            && forall|i: int|
            0 <= i < es.len() ==> (#[trigger] r[acc.len() + i]).0 == es[i].0 && shape(
                r[acc.len() + i].1,
            ) == shape(es[i].1),
    decreases es,
{
    if es.len() == 0 {
        assert(acc.subrange(0, acc.len() as int) =~= acc);
    } else {
        let (k, v) = es[0];
        let rest = es.subrange(1, es.len() as int);
        let a = text_encoding(k);
        let b = encoding(v);
        let c = entries_encoding(rest);
        assert(entries_encoding(es) == a + b + c);
        lemma_split(buf, p, a + b, c);
        lemma_split(buf, p, a, b);
        lemma_decode_text_encoding(buf, p, k);
        lemma_encoding_nonempty(v);
        lemma_decode_encoding(buf, p + a.len(), v);
        let (w, e2) = decode_item(buf, p + a.len())->Ok_0;
        let acc2 = acc.push((k, w));
        assert(decode_entry(buf, p, acc) == Ok::<(Seq<(Seq<char>, WampValue)>, int), crate::errors::WampError>((acc2, e2)));
        assert forall|i: int| 0 <= i < rest.len() implies !has_key(acc2, #[trigger] rest[i].0) by {
            assert(rest[i] == es[i + 1]);
            assert(!has_key(acc, es[i + 1].0));
            if has_key(acc2, rest[i].0) {
                let j = choose|j: int| 0 <= j < acc2.len() && #[trigger] acc2[j].0 == rest[i].0;
                if j < acc.len() {
                    assert(acc[j].0 == es[i + 1].0);
                } else {
                    assert(es[0].0 != es[i + 1].0);
                }
            }
        }
        assert forall|i: int|
            0 <= i < rest.len() implies plain(#[trigger] rest[i].1) && encode_utf8(rest[i].0).len()
                < 0x1_0000_0000_0000_0000 by {
            assert(rest[i] == es[i + 1]);
        }
        assert forall|i: int, j: int| 0 <= i < j < rest.len() implies #[trigger] rest[i].0
            != #[trigger] rest[j].0 by {
            assert(rest[i] == es[i + 1]);
            assert(rest[j] == es[j + 1]);
        }
        lemma_decode_entries_encoding(buf, e2, rest, acc2);
        assert((es.len() - 1) as nat == rest.len());
        let (r, e) = decode_entries(buf, e2, rest.len(), acc2)->Ok_0;
        assert(r.subrange(0, acc.len() as int) =~= r.subrange(0, acc2.len() as int).subrange(0, acc.len() as int));
        assert(acc2.subrange(0, acc.len() as int) =~= acc);
        assert forall|i: int|
            0 <= i < es.len() implies (#[trigger] r[acc.len() + i]).0 == es[i].0 && shape(
                r[acc.len() + i].1,
            ) == shape(es[i].1) by {
            if i == 0 {
                assert(r[acc.len() as int] == r.subrange(0, acc2.len() as int)[acc.len() as int]);
            } else {
                assert(r[acc.len() + i] == r[acc2.len() + (i - 1)]);
                assert(es[i] == rest[i - 1]);
            }
        }
    }
}

/// Decoding the encoding of a valid value gives that value back as the
/// encoding carries it (recorded positions aside, a non-negative signed integer
/// as the unsigned one), and consumes exactly the encoding.
pub proof fn lemma_round_trip(v: WampValue)
    requires
        plain(v),
    ensures
        decode_item(encoding(v), 0) matches Ok((w, e)) && e == encoding(v).len() && shape(w)
            == shape(v),
{
    let enc = encoding(v);
    assert(enc.subrange(0, enc.len() as int) =~= enc);
    lemma_decode_encoding(enc, 0, v);
}


/// Every array and map in `v` (`v` included) decodes again from `buf`, at the
/// position it recorded, to itself.
pub open spec fn offsets_hold(buf: Seq<u8>, v: WampValue) -> bool
    decreases v,
{
    match v {
        WampValue::Array(items, off) => {
            &&& (match decode_item(buf, off as int) {
                Ok((w, _)) => w == v,
                Err(_) => false,
            })
            &&& forall|i: int| 0 <= i < items.len() ==> offsets_hold(buf, #[trigger] items[i])
        },
        WampValue::Hash(entries, off) => {
            &&& (match decode_item(buf, off as int) {
                Ok((w, _)) => w == v,
                Err(_) => false,
            })
            &&& forall|i: int| 0 <= i < entries.len() ==> offsets_hold(buf, #[trigger] entries[i].1)
        },
        _ => true,
    }
}

/// What decoding promises of each value it produced: its subtrees decode
/// again at their offsets, and its maps have unique keys.
pub open spec fn decoded_ok(buf: Seq<u8>, v: WampValue) -> bool {
    offsets_hold(buf, v) && unique_keys(v)
}

proof fn lemma_offsets_item(buf: Seq<u8>, p: int)
    ensures
        decode_item(buf, p) matches Ok((v, _)) ==> decoded_ok(buf, v),
    decreases buf.len() - p, 0int,
{
    if let Ok((v, end)) = decode_item(buf, p) {
        lemma_head_arg_bound(buf, p);
        match kind_at(buf, p)->Some_0 {
            CborKind::Array => {
                if buf[p] == 0x9f {
                    lemma_offsets_items_indef(buf, p + 1);
                } else {
                    let (n, e) = head_arg(buf, p)->Some_0;
                    lemma_offsets_items(buf, e, n);
                }
            },
            CborKind::Dict => {
                if buf[p] == 0xbf {
                    lemma_offsets_entries_indef(buf, p + 1, Seq::empty());
                } else {
                    let (n, e) = head_arg(buf, p)->Some_0;
                    lemma_offsets_entries(buf, e, n, Seq::empty());
                }
            },
            _ => {},
        }
    }
}

proof fn lemma_offsets_items(buf: Seq<u8>, p: int, n: nat)
    ensures
        decode_items(buf, p, n) matches Ok((s, _)) ==> forall|i: int|
            0 <= i < s.len() ==> decoded_ok(buf, #[trigger] s[i]),
    decreases buf.len() - p, 1int,
{
    if n > 0 {
        if let Ok((s, end)) = decode_items(buf, p, n) {
            let (v, e) = decode_item(buf, p)->Ok_0;
            lemma_offsets_item(buf, p);
            lemma_offsets_items(buf, e, (n - 1) as nat);
            let rest = decode_items(buf, e, (n - 1) as nat)->Ok_0.0;
            assert forall|i: int| 0 <= i < s.len() implies decoded_ok(buf, #[trigger] s[i]) by {
                if i > 0 {
                    assert(s[i] == rest[i - 1]);
                }
            }
        }
    }
}

proof fn lemma_offsets_items_indef(buf: Seq<u8>, p: int)
    ensures
        decode_items_indef(buf, p) matches Ok((s, _)) ==> forall|i: int|
            0 <= i < s.len() ==> decoded_ok(buf, #[trigger] s[i]),
    decreases buf.len() - p, 1int,
{
    if 0 <= p < buf.len() && buf[p] != 0xff {
        if let Ok((s, end)) = decode_items_indef(buf, p) {
            let (v, e) = decode_item(buf, p)->Ok_0;
            lemma_offsets_item(buf, p);
            lemma_offsets_items_indef(buf, e);
            let rest = decode_items_indef(buf, e)->Ok_0.0;
            assert forall|i: int| 0 <= i < s.len() implies decoded_ok(buf, #[trigger] s[i]) by {
                if i > 0 {
                    assert(s[i] == rest[i - 1]);
                }
            }
        }
    }
}

proof fn lemma_offsets_entry(buf: Seq<u8>, p: int, acc: Seq<(Seq<char>, WampValue)>)
    requires
        forall|i: int| 0 <= i < acc.len() ==> decoded_ok(buf, #[trigger] acc[i].1),
        forall|i: int, j: int| 0 <= i < j < acc.len() ==> #[trigger] acc[i].0 != #[trigger] acc[j].0,
    ensures
        decode_entry(buf, p, acc) matches Ok((r, _)) ==> forall|i: int|
            0 <= i < r.len() ==> decoded_ok(buf, #[trigger] r[i].1),
        decode_entry(buf, p, acc) matches Ok((r, _)) ==> forall|i: int, j: int|
            0 <= i < j < r.len() ==> #[trigger] r[i].0 != #[trigger] r[j].0,
    decreases buf.len() - p, 1int,
{
    if let Ok((r, e2)) = decode_entry(buf, p, acc) {
        let (k, e1) = decode_key(buf, p)->Ok_0;
        lemma_offsets_item(buf, e1);
        assert forall|i: int| 0 <= i < r.len() implies decoded_ok(buf, #[trigger] r[i].1) by {
            if i < acc.len() {
                assert(r[i] == acc[i]);
            }
        }
        assert forall|i: int, j: int| 0 <= i < j < r.len() implies #[trigger] r[i].0 != #[trigger] r[j].0 by {
            assert(r[i] == acc[i]);
            if j < acc.len() {
                assert(r[j] == acc[j]);
            } else {
                assert(r[j].0 == k);
                assert(acc[i].0 != k);
            }
        }
    }
}

proof fn lemma_offsets_entries(buf: Seq<u8>, p: int, n: nat, acc: Seq<(Seq<char>, WampValue)>)
    requires
        forall|i: int| 0 <= i < acc.len() ==> decoded_ok(buf, #[trigger] acc[i].1),
        forall|i: int, j: int| 0 <= i < j < acc.len() ==> #[trigger] acc[i].0 != #[trigger] acc[j].0,
    ensures
        decode_entries(buf, p, n, acc) matches Ok((r, _)) ==> forall|i: int|
            0 <= i < r.len() ==> decoded_ok(buf, #[trigger] r[i].1),
        decode_entries(buf, p, n, acc) matches Ok((r, _)) ==> forall|i: int, j: int|
            0 <= i < j < r.len() ==> #[trigger] r[i].0 != #[trigger] r[j].0,
    decreases buf.len() - p, 2int,
{
    if n > 0 {
        if let Ok((acc2, e)) = decode_entry(buf, p, acc) {
            lemma_offsets_entry(buf, p, acc);
            if p < e <= buf.len() {
                lemma_offsets_entries(buf, e, (n - 1) as nat, acc2);
            }
        }
    }
}

proof fn lemma_offsets_entries_indef(buf: Seq<u8>, p: int, acc: Seq<(Seq<char>, WampValue)>)
    requires
        forall|i: int| 0 <= i < acc.len() ==> decoded_ok(buf, #[trigger] acc[i].1),
        forall|i: int, j: int| 0 <= i < j < acc.len() ==> #[trigger] acc[i].0 != #[trigger] acc[j].0,
    ensures
        decode_entries_indef(buf, p, acc) matches Ok((r, _)) ==> forall|i: int|
            0 <= i < r.len() ==> decoded_ok(buf, #[trigger] r[i].1),
        decode_entries_indef(buf, p, acc) matches Ok((r, _)) ==> forall|i: int, j: int|
            0 <= i < j < r.len() ==> #[trigger] r[i].0 != #[trigger] r[j].0,
    decreases buf.len() - p, 2int,
{
    if 0 <= p < buf.len() && buf[p] != 0xff {
        if let Ok((acc2, e)) = decode_entry(buf, p, acc) {
            lemma_offsets_entry(buf, p, acc);
            if p < e <= buf.len() {
                lemma_offsets_entries_indef(buf, e, acc2);
            }
        }
    }
}

/// Once a value is decoded, each array and map inside it (the value itself
/// included) can be decoded again from the same buffer at the position it
/// recorded, giving it back: a subtree is reached without decoding what came
/// before it.
pub proof fn lemma_subtree_offsets(buf: Seq<u8>, p: int)
    ensures
        decode_item(buf, p) matches Ok((v, _)) ==> offsets_hold(buf, v),
{
    lemma_offsets_item(buf, p);
}

/// A decoded value is valid: the keys of every map in it, at every depth,
/// are unique.
pub proof fn lemma_decoded_keys_unique(buf: Seq<u8>, p: int)
    ensures
        decode_item(buf, p) matches Ok((v, _)) ==> unique_keys(v),
{
    lemma_offsets_item(buf, p);
}

} // verus!
