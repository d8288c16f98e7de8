//! The recursive value model, its binary encoding, and the streaming decoder
//! that records where each array and map began.
use vstd::prelude::*;
use vstd::utf8::*;
use vstd::slice::slice_subrange;
use vstd::string::StringExecFns;
use crate::cbor::{
    lemma_be_value_2, lemma_be_value_4,
    lemma_be_value_bound, pow256, lemma_head_arg_bound, be_bytes, be_value, read_u64_be, head, head_arg, kind_at, push_be, read_array_head,
    read_kind, read_map_head, read_negative, read_text, read_u64, write_array_head, write_bool,
    write_i64, write_map_head, write_null, write_text, write_u64, CborKind,
};
use crate::errors::WampError;
use crate::float_bits::{widen_half, widen_half_bits, widen_single, widen_single_bits};

verus! {

/// What a value is: floats are held as their IEEE-754 binary64 bits, text as
/// its characters, arrays and maps with the position where their encoding began.
pub enum WampValue {
    Float(u64),
    Int(int),
    UInt(nat),
    Bool(bool),
    Str(Seq<char>),
    Array(Seq<WampValue>, nat),
    Hash(Seq<(Seq<char>, WampValue)>, nat),
    Serializable(Seq<u8>),
    Null,
}

/// A value as the protocol carries it.
///
/// `Array` and `Hash` hold the position in the decoded buffer where their
/// encoding began (0 for a value built by hand). `Serializable` holds the
/// encoding that an application type produced of itself.
#[derive(Debug)]
pub enum WampData {
    Float(u64),
    Int(i64),
    UInt(u64),
    Bool(bool),
    Str(String),
    Array(Vec<WampData>, usize),
    Hash(Vec<(String, WampData)>, usize),
    Serializable(Vec<u8>),
    Null,
}

impl WampData {
    pub open spec fn view(&self) -> WampValue
        decreases self,
    {
        match self {
            WampData::Float(b) => WampValue::Float(*b),
            WampData::Int(i) => WampValue::Int(*i as int),
            WampData::UInt(u) => WampValue::UInt(*u as nat),
            WampData::Bool(b) => WampValue::Bool(*b),
            WampData::Str(s) => WampValue::Str(s@),
            WampData::Array(items, off) => WampValue::Array(
                Seq::new(
                    items@.len(),
                    |i: int|
                        if 0 <= i < items@.len() {
                            items@[i].view()
                        } else {
                            WampValue::Null
                        },
                ),
                *off as nat,
            ),
            WampData::Hash(entries, off) => WampValue::Hash(
                Seq::new(
                    entries@.len(),
                    |i: int|
                        if 0 <= i < entries@.len() {
                            (entries@[i].0@, entries@[i].1.view())
                        } else {
                            (Seq::empty(), WampValue::Null)
                        },
                ),
                *off as nat,
            ),
            WampData::Serializable(b) => WampValue::Serializable(b@),
            WampData::Null => WampValue::Null,
        }
    }
}


/// The bytes that encode `v`: scalars in their natural width, arrays and maps
/// as definite-length composites, map keys as text.
pub open spec fn encoding(v: WampValue) -> Seq<u8>
    decreases v,
{
    match v {
        WampValue::Float(b) => seq![0xfbu8] + be_bytes(b as nat, 8),
        WampValue::Int(i) => if i >= 0 {
            head(0, i as nat)
        } else {
            head(1, (-1 - i) as nat)
        },
        WampValue::UInt(u) => head(0, u),
        WampValue::Bool(b) => seq![if b { 0xf5u8 } else { 0xf4u8 }],
        WampValue::Str(s) => text_encoding(s),
        WampValue::Array(items, _) => head(4, items.len()) + items_encoding(items),
        WampValue::Hash(entries, _) => head(5, entries.len()) + entries_encoding(entries),
        WampValue::Serializable(b) => b,
        WampValue::Null => seq![0xf6u8],
    }
}

/// The encoding of a text: its UTF-8 length in a head of major type 3, then its UTF-8 form.
pub open spec fn text_encoding(s: Seq<char>) -> Seq<u8> {
    head(3, encode_utf8(s).len()) + encode_utf8(s)
}

/// The encodings of `items`, one after the other.
pub open spec fn items_encoding(items: Seq<WampValue>) -> Seq<u8>
    decreases items,
{
    if items.len() == 0 {
        Seq::empty()
    } else {
        encoding(items[0]) + items_encoding(items.subrange(1, items.len() as int))
    }
}

/// The encodings of `entries`, each key (as text) before its value.
pub open spec fn entries_encoding(entries: Seq<(Seq<char>, WampValue)>) -> Seq<u8>
    decreases entries,
{
    if entries.len() == 0 {
        Seq::empty()
    } else {
        text_encoding(entries[0].0) + encoding(entries[0].1) + entries_encoding(
            entries.subrange(1, entries.len() as int),
        )
    }
}

proof fn lemma_items_encoding_push(items: Seq<WampValue>, x: WampValue)
    ensures
        items_encoding(items.push(x)) == items_encoding(items) + encoding(x),
    decreases items.len(),
{
    if items.len() == 0 {
        assert(items.push(x).subrange(1, 1) =~= Seq::<WampValue>::empty());
        assert(items_encoding(Seq::<WampValue>::empty()) =~= Seq::<u8>::empty());
        assert(items.push(x)[0] == x);
        assert(items_encoding(items.push(x)) =~= encoding(x));
    } else {
        let rest = items.subrange(1, items.len() as int);
        assert(items.push(x).subrange(1, items.len() + 1int) =~= rest.push(x));
        lemma_items_encoding_push(rest, x);
        assert(items_encoding(items.push(x)) =~= items_encoding(items) + encoding(x));
    }
}

proof fn lemma_entries_encoding_push(entries: Seq<(Seq<char>, WampValue)>, k: Seq<char>, x: WampValue)
    ensures
        entries_encoding(entries.push((k, x))) == entries_encoding(entries) + text_encoding(k)
            + encoding(x),
    decreases entries.len(),
{
    if entries.len() == 0 {
        assert(entries.push((k, x)).subrange(1, 1) =~= Seq::<(Seq<char>, WampValue)>::empty());
        assert(entries_encoding(Seq::<(Seq<char>, WampValue)>::empty()) =~= Seq::<u8>::empty());
        assert(entries.push((k, x))[0] == (k, x));
        assert(entries_encoding(entries.push((k, x))) =~= text_encoding(k) + encoding(x));
    } else {
        let rest = entries.subrange(1, entries.len() as int);
        assert(entries.push((k, x)).subrange(1, entries.len() + 1int) =~= rest.push((k, x)));
        lemma_entries_encoding_push(rest, k, x);
        assert(entries_encoding(entries.push((k, x))) =~= entries_encoding(entries)
            + text_encoding(k) + encoding(x));
    }
}

/// An application type that encodes itself.
pub trait WampSerializable {
    /// The bytes that encode this item.
    spec fn encoded(&self) -> Vec<u8>;

    /// Appends this item's encoding to `w`.
    fn encode(&self, w: &mut WampWrite)
        ensures
            final(w).buffer@ == old(w).buffer@ + self.encoded()@,
    ;

    /// A name for diagnostics.
    fn debug_name(&self) -> &str;
}

/// The sink that values are encoded into.
#[derive(Debug)]
pub struct WampWrite {
    pub buffer: Vec<u8>,
}

impl WampWrite {
    /// Appends `buf` to what was written.
    pub fn write_all(&mut self, buf: &[u8])
        ensures
            final(self).buffer@ == old(self).buffer@ + buf@,
    {
        let ghost start = self.buffer@;
        let mut i: usize = 0;
        while i < buf.len()
            invariant
                i <= buf@.len(),
                self.buffer@ == start + buf@.subrange(0, i as int),
            decreases buf@.len() - i,
        {
            self.buffer.push(buf[i]);
            i = i + 1;
            assert(self.buffer@ =~= start + buf@.subrange(0, i as int));
        }
        assert(buf@.subrange(0, i as int) =~= buf@);
    }
}

impl WampData {
    /// Appends the encoding of this value, which must be valid (its maps' keys
    /// unique, see `has_unique_keys`), to `w`.
    pub fn serialize_with(&self, w: &mut WampWrite)
        requires
            unique_keys(self@),
        ensures
            final(w).buffer@ == old(w).buffer@ + encoding(self@),
        decreases self,
    {
        match self {
            WampData::Float(b) => {
                w.buffer.push(0xfb);
                push_be(&mut w.buffer, *b, 8);
            },
            WampData::Int(i) => {
                write_i64(&mut w.buffer, *i);
            },
            WampData::UInt(u) => {
                write_u64(&mut w.buffer, *u);
            },
            WampData::Bool(b) => {
                write_bool(&mut w.buffer, *b);
            },
            WampData::Str(s) => {
                write_text(&mut w.buffer, s.as_str());
            },
            WampData::Array(items, _) => {
                let ghost start = w.buffer@;
                let ghost model = self@;
                write_array_head(&mut w.buffer, items.len() as u64);
                let mut i: usize = 0;
                while i < items.len()
                    invariant
                        i <= items@.len(),
                        model == self@,
                        unique_keys(model),
                        self matches WampData::Array(its, _) && its@ == items@,
                        w.buffer@ == start + head(4, items@.len()) + items_encoding(
                            model->Array_0.subrange(0, i as int),
                        ),
                    decreases items@.len() - i,
                {
                    let ghost before = w.buffer@;
                    assert(model->Array_0[i as int] == items@[i as int]@);
                    items[i].serialize_with(w);
                    proof {
                        let m = model->Array_0;
                        assert(m[i as int] == items@[i as int]@);
                        assert(m.subrange(0, i + 1) =~= m.subrange(0, i as int).push(m[i as int]));
                        lemma_items_encoding_push(m.subrange(0, i as int), m[i as int]);
                    }
                    i = i + 1;
                    assert(w.buffer@ =~= start + head(4, items@.len()) + items_encoding(
                        model->Array_0.subrange(0, i as int),
                    ));
                }
                assert(model->Array_0.subrange(0, i as int) =~= model->Array_0);
            },
            WampData::Hash(entries, _) => {
                let ghost start = w.buffer@;
                let ghost model = self@;
                write_map_head(&mut w.buffer, entries.len() as u64);
                let mut i: usize = 0;
                while i < entries.len()
                    invariant
                        i <= entries@.len(),
                        model == self@,
                        unique_keys(model),
                        self matches WampData::Hash(es, _) && es@ == entries@,
                        w.buffer@ == start + head(5, entries@.len()) + entries_encoding(
                            model->Hash_0.subrange(0, i as int),
                        ),
                    decreases entries@.len() - i,
                {
                    let entry = &entries[i];
                    write_text(&mut w.buffer, entry.0.as_str());
                    assert(model->Hash_0[i as int] == (entries@[i as int].0@, entries@[i as int].1@));
                    assert(unique_keys(model->Hash_0[i as int].1));
                    entry.1.serialize_with(w);
                    proof {
                        let m = model->Hash_0;
                        assert(m[i as int] == (entries@[i as int].0@, entries@[i as int].1@));
                        assert(m.subrange(0, i + 1) =~= m.subrange(0, i as int).push(m[i as int]));
                        lemma_entries_encoding_push(m.subrange(0, i as int), m[i as int].0, m[i as int].1);
                    }
                    i = i + 1;
                    assert(w.buffer@ =~= start + head(5, entries@.len()) + entries_encoding(
                        model->Hash_0.subrange(0, i as int),
                    ));
                }
                assert(model->Hash_0.subrange(0, i as int) =~= model->Hash_0);
            },
            WampData::Serializable(b) => {
                w.write_all(b.as_slice());
            },
            WampData::Null => {
                write_null(&mut w.buffer);
            },
        }
    }

    /// The encoding of this value, which must be valid (its maps' keys unique,
    /// see `has_unique_keys`).
    pub fn to_vec(&self) -> (r: Vec<u8>)
        requires
            unique_keys(self@),
        ensures
            r@ == encoding(self@),
    {
        let mut w = WampWrite { buffer: Vec::new() };
        self.serialize_with(&mut w);
        assert(w.buffer@ =~= encoding(self@));
        w.buffer
    }
}


/// Whether `entries` already holds the key `k`.
pub open spec fn has_key(entries: Seq<(Seq<char>, WampValue)>, k: Seq<char>) -> bool {
    exists|i: int| 0 <= i < entries.len() && #[trigger] entries[i].0 == k
}

/// The text whose head is at `p`, and the position after it.
pub open spec fn decode_text(buf: Seq<u8>, p: int) -> Result<(Seq<char>, int), WampError> {
    match head_arg(buf, p) {
        Some((n, e)) => if e + n <= buf.len() && valid_utf8(buf.subrange(e, e + n)) {
            Ok((decode_utf8(buf.subrange(e, e + n)), e + n))
        } else {
            Err(WampError::MalformedData)
        },
        None => Err(WampError::MalformedData),
    }
}

/// A map key at `p`: it must be text.
pub open spec fn decode_key(buf: Seq<u8>, p: int) -> Result<(Seq<char>, int), WampError> {
    match kind_at(buf, p) {
        Some(CborKind::Text) => decode_text(buf, p),
        Some(_) => Err(WampError::IncorrectElementType),
        None => Err(WampError::MalformedData),
    }
}

/// The value whose encoding starts at `p`, and the position after it.
///
/// Integers of every width widen to `Int` / `UInt`, floats to binary64 bits; arrays and maps may be of
/// definite or indefinite length, and record `p` as their start; a map may not
/// repeat a key; items the model cannot hold are `UnsupportedType`.
pub open spec fn decode_item(buf: Seq<u8>, p: int) -> Result<(WampValue, int), WampError>
    decreases buf.len() - p, 0int,
{
    match kind_at(buf, p) {
        None => Err(WampError::MalformedData),
        Some(k) => match k {
            CborKind::Unsigned => match head_arg(buf, p) {
                Some((a, e)) => Ok((WampValue::UInt(a), e)),
                None => Err(WampError::MalformedData),
            },
            CborKind::Negative => match head_arg(buf, p) {
                Some((a, e)) => if a < 0x8000_0000_0000_0000 {
                    Ok((WampValue::Int(-1 - a), e))
                } else {
                    Err(WampError::MalformedData)
                },
                None => Err(WampError::MalformedData),
            },
            CborKind::Double => if p + 9 <= buf.len() {
                Ok((WampValue::Float(be_value(buf.subrange(p + 1, p + 9)) as u64), p + 9))
            } else {
                Err(WampError::MalformedData)
            },
            CborKind::Narrow => if buf[p] == 0xf9 {
                if p + 3 <= buf.len() {
                    Ok((WampValue::Float(widen_half(be_value(buf.subrange(p + 1, p + 3))) as u64), p + 3))
                } else {
                    Err(WampError::MalformedData)
                }
            } else if p + 5 <= buf.len() {
                Ok((WampValue::Float(widen_single(be_value(buf.subrange(p + 1, p + 5))) as u64), p + 5))
            } else {
                Err(WampError::MalformedData)
            },
            CborKind::Bool => Ok((WampValue::Bool(buf[p] == 0xf5), p + 1)),
            CborKind::Null => Ok((WampValue::Null, p + 1)),
            CborKind::Text => match decode_text(buf, p) {
                Ok((s, e)) => Ok((WampValue::Str(s), e)),
                Err(x) => Err(x),
            },
            CborKind::Array => if buf[p] == 0x9f {
                match decode_items_indef(buf, p + 1) {
                    Ok((items, end)) => Ok((WampValue::Array(items, p as nat), end)),
                    Err(x) => Err(x),
                }
            } else {
                match head_arg(buf, p) {
                    Some((n, e)) => match decode_items(buf, e, n) {
                        Ok((items, end)) => Ok((WampValue::Array(items, p as nat), end)),
                        Err(x) => Err(x),
                    },
                    None => Err(WampError::MalformedData),
                }
            },
            CborKind::Dict => if buf[p] == 0xbf {
                match decode_entries_indef(buf, p + 1, Seq::empty()) {
                    Ok((entries, end)) => Ok((WampValue::Hash(entries, p as nat), end)),
                    Err(x) => Err(x),
                }
            } else {
                match head_arg(buf, p) {
                    Some((n, e)) => match decode_entries(buf, e, n, Seq::empty()) {
                        Ok((entries, end)) => Ok((WampValue::Hash(entries, p as nat), end)),
                        Err(x) => Err(x),
                    },
                    None => Err(WampError::MalformedData),
                }
            },
            CborKind::Break => Err(WampError::MalformedData),
            _ => Err(WampError::UnsupportedType),
        },
    }
}

/// `n` values one after the other from `p`.
pub open spec fn decode_items(buf: Seq<u8>, p: int, n: nat) -> Result<(Seq<WampValue>, int), WampError>
    decreases buf.len() - p, 1int,
{
    if n == 0 {
        Ok((Seq::empty(), p))
    } else {
        match decode_item(buf, p) {
            Ok((v, e)) => if p < e <= buf.len() {
                match decode_items(buf, e, (n - 1) as nat) {
                    Ok((rest, end)) => Ok((seq![v] + rest, end)),
                    Err(x) => Err(x),
                }
            } else {
                Err(WampError::MalformedData)
            },
            Err(x) => Err(x),
        }
    }
}

/// Values from `p` up to a break marker, and the position after the marker.
pub open spec fn decode_items_indef(buf: Seq<u8>, p: int) -> Result<(Seq<WampValue>, int), WampError>
    decreases buf.len() - p, 1int,
{
    if !(0 <= p < buf.len()) {
        Err(WampError::MalformedData)
    } else if buf[p] == 0xff {
        Ok((Seq::empty(), p + 1))
    } else {
        match decode_item(buf, p) {
            Ok((v, e)) => if p < e <= buf.len() {
                match decode_items_indef(buf, e) {
                    Ok((rest, end)) => Ok((seq![v] + rest, end)),
                    Err(x) => Err(x),
                }
            } else {
                Err(WampError::MalformedData)
            },
            Err(x) => Err(x),
        }
    }
}

/// One key and its value at `p`, added to `acc` unless the key is already there.
pub open spec fn decode_entry(
    buf: Seq<u8>,
    p: int,
    acc: Seq<(Seq<char>, WampValue)>,
) -> Result<(Seq<(Seq<char>, WampValue)>, int), WampError>
    decreases buf.len() - p, 1int,
{
    match decode_key(buf, p) {
        Ok((k, e1)) => if !(p < e1 <= buf.len()) {
            Err(WampError::MalformedData)
        } else if has_key(acc, k) {
            Err(WampError::MalformedData)
        } else {
            match decode_item(buf, e1) {
                Ok((v, e2)) => if e1 < e2 <= buf.len() {
                    Ok((acc.push((k, v)), e2))
                } else {
                    Err(WampError::MalformedData)
                },
                Err(x) => Err(x),
            }
        },
        Err(x) => Err(x),
    }
}

/// `n` entries from `p`, appended to `acc`.
pub open spec fn decode_entries(
    buf: Seq<u8>,
    p: int,
    n: nat,
    acc: Seq<(Seq<char>, WampValue)>,
) -> Result<(Seq<(Seq<char>, WampValue)>, int), WampError>
    decreases buf.len() - p, 2int,
{
    if n == 0 {
        Ok((acc, p))
    } else {
        match decode_entry(buf, p, acc) {
            Ok((acc2, e)) => if p < e <= buf.len() {
                decode_entries(buf, e, (n - 1) as nat, acc2)
            } else {
                Err(WampError::MalformedData)
            },
            Err(x) => Err(x),
        }
    }
}

/// Entries from `p` up to a break marker, appended to `acc`.
pub open spec fn decode_entries_indef(
    buf: Seq<u8>,
    p: int,
    acc: Seq<(Seq<char>, WampValue)>,
) -> Result<(Seq<(Seq<char>, WampValue)>, int), WampError>
    decreases buf.len() - p, 2int,
{
    if !(0 <= p < buf.len()) {
        Err(WampError::MalformedData)
    } else if buf[p] == 0xff {
        Ok((acc, p + 1))
    } else {
        match decode_entry(buf, p, acc) {
            Ok((acc2, e)) => if p < e <= buf.len() {
                decode_entries_indef(buf, e, acc2)
            } else {
                Err(WampError::MalformedData)
            },
            Err(x) => Err(x),
        }
    }
}


/// The models of a sequence of values.
pub open spec fn items_view(s: Seq<WampData>) -> Seq<WampValue> {
    Seq::new(s.len(), |i: int| s[i]@)
}

/// The models of a sequence of map entries.
pub open spec fn entries_view(s: Seq<(String, WampData)>) -> Seq<(Seq<char>, WampValue)> {
    Seq::new(s.len(), |i: int| (s[i].0@, s[i].1@))
}

/// `r` with `pre` put in front of the sequence it holds.
pub open spec fn prefixed<T>(pre: Seq<T>, r: Result<(Seq<T>, int), WampError>) -> Result<
    (Seq<T>, int),
    WampError,
> {
    match r {
        Ok((s, e)) => Ok((pre + s, e)),
        Err(x) => Err(x),
    }
}

/// An array built from `items` has their models as its elements.
pub proof fn lemma_array_view(items: Vec<WampData>, off: usize)
    ensures
        WampData::Array(items, off)@ == WampValue::Array(items_view(items@), off as nat),
{
    assert(WampData::Array(items, off)@->Array_0 =~= items_view(items@));
}

/// A map built from `entries` has their models as its entries.
pub proof fn lemma_hash_view(entries: Vec<(String, WampData)>, off: usize)
    ensures
        WampData::Hash(entries, off)@ == WampValue::Hash(entries_view(entries@), off as nat),
{
    assert(WampData::Hash(entries, off)@->Hash_0 =~= entries_view(entries@));
}

/// Decodes the text whose head is at `pos`.
fn decode_text_at(buf: &[u8], pos: usize) -> (r: Result<(String, usize), WampError>)
    requires
        kind_at(buf@, pos as int) == Some(CborKind::Text),
    ensures
        match decode_text(buf@, pos as int) {
            Ok((t, e)) => r is Ok && r->Ok_0.0@ == t && r->Ok_0.1 == e,
            Err(x) => r == Err::<(String, usize), WampError>(x),
        },
{
    match read_text(buf, pos) {
        Ok((t, e)) => {
            proof {
                let (n, he) = head_arg(buf@, pos as int)->Some_0;
                encode_utf8_decode_utf8(t@);
            }
            Ok((t, e))
        },
        Err(_) => Err(WampError::MalformedData),
    }
}

/// Whether `acc` already holds the key `k`.
fn contains_key(acc: &Vec<(String, WampData)>, k: &String) -> (r: bool)
    ensures
        r == has_key(entries_view(acc@), k@),
{
    let mut j: usize = 0;
    while j < acc.len()
        invariant
            j <= acc@.len(),
            forall|m: int| 0 <= m < j ==> acc@[m].0@ != k@,
        decreases acc@.len() - j,
    {
        if acc[j].0 == *k {
            assert(entries_view(acc@)[j as int].0 == k@);
            return true;
        }
        j = j + 1;
    }
    assert forall|m: int| 0 <= m < entries_view(acc@).len() implies #[trigger] entries_view(acc@)[m].0 != k@ by {
        assert(entries_view(acc@)[m].0 == acc@[m].0@);
    }
    false
}

/// Decodes `n` values one after the other from `pos`.
fn decode_items_at(buf: &[u8], pos: usize, n: u64) -> (r: Result<(Vec<WampData>, usize), WampError>)
    requires
        pos <= buf@.len(),
    ensures
        match decode_items(buf@, pos as int, n as nat) {
            Ok((items, e)) => r is Ok && items_view(r->Ok_0.0@) == items && r->Ok_0.1 == e,
            Err(x) => r == Err::<(Vec<WampData>, usize), WampError>(x),
        },
    decreases buf@.len() - pos, 1int,
{
    let mut items: Vec<WampData> = Vec::new();
    let mut cur = pos;
    let mut i: u64 = 0;
    while i < n
        invariant
            pos <= cur <= buf@.len(),
            i <= n,
            decode_items(buf@, pos as int, n as nat) == prefixed(
                items_view(items@),
                decode_items(buf@, cur as int, (n - i) as nat),
            ),
        decreases n - i,
    {
        match WampData::deserialize_with(buf, cur) {
            Ok((v, e)) => {
                if !(cur < e && e <= buf.len()) {
                    return Err(WampError::MalformedData);
                }
                let ghost before = items@;
                let ghost vm = v@;
                items.push(v);
                proof {
                    assert(items_view(items@) =~= items_view(before).push(vm));
                    let rest = decode_items(buf@, e as int, (n - i - 1) as nat);
                    match rest {
                        Ok((s, end)) => {
                            assert(items_view(before) + (seq![vm] + s) =~= items_view(items@) + s);
                        },
                        Err(_) => {},
                    }
                }
                cur = e;
                i = i + 1;
            },
            Err(x) => {
                return Err(x);
            },
        }
    }
    assert(items_view(items@) + Seq::<WampValue>::empty() =~= items_view(items@));
    Ok((items, cur))
}

/// Decodes values from `pos` up to a break marker.
fn decode_items_indef_at(buf: &[u8], pos: usize) -> (r: Result<(Vec<WampData>, usize), WampError>)
    requires
        pos <= buf@.len(),
    ensures
        match decode_items_indef(buf@, pos as int) {
            Ok((items, e)) => r is Ok && items_view(r->Ok_0.0@) == items && r->Ok_0.1 == e,
            Err(x) => r == Err::<(Vec<WampData>, usize), WampError>(x),
        },
    decreases buf@.len() - pos, 1int,
{
    let mut items: Vec<WampData> = Vec::new();
    let mut cur = pos;
    loop
        invariant
            pos <= cur <= buf@.len(),
            decode_items_indef(buf@, pos as int) == prefixed(
                items_view(items@),
                decode_items_indef(buf@, cur as int),
            ),
        decreases buf@.len() - cur,
    {
        if cur >= buf.len() {
            return Err(WampError::MalformedData);
        }
        if buf[cur] == 0xff {
            assert(items_view(items@) + Seq::<WampValue>::empty() =~= items_view(items@));
            return Ok((items, cur + 1));
        }
        match WampData::deserialize_with(buf, cur) {
            Ok((v, e)) => {
                if !(cur < e && e <= buf.len()) {
                    return Err(WampError::MalformedData);
                }
                let ghost before = items@;
                let ghost vm = v@;
                items.push(v);
                proof {
                    assert(items_view(items@) =~= items_view(before).push(vm));
                    let rest = decode_items_indef(buf@, e as int);
                    match rest {
                        Ok((s, end)) => {
                            assert(items_view(before) + (seq![vm] + s) =~= items_view(items@) + s);
                        },
                        Err(_) => {},
                    }
                }
                cur = e;
            },
            Err(x) => {
                return Err(x);
            },
        }
    }
}

/// Decodes one key and its value at `pos` into `acc`, unless the key is already there.
fn decode_entry_at(buf: &[u8], pos: usize, acc: &mut Vec<(String, WampData)>) -> (r: Result<usize, WampError>)
    requires
        pos <= buf@.len(),
    ensures
        match decode_entry(buf@, pos as int, entries_view(old(acc)@)) {
            Ok((es, e)) => r is Ok && r->Ok_0 == e && entries_view(final(acc)@) == es,
            Err(x) => r == Err::<usize, WampError>(x),
        },
        r matches Ok(e) ==> pos < e <= buf@.len(),
    decreases buf@.len() - pos, 1int,
{
    let k = match read_kind(buf, pos) {
        Ok(k) => k,
        Err(_) => {
            return Err(WampError::MalformedData);
        },
    };
    if k != CborKind::Text {
        return Err(WampError::IncorrectElementType);
    }
    let (key, e1) = match decode_text_at(buf, pos) {
        Ok(t) => t,
        Err(x) => {
            return Err(x);
        },
    };
    if !(pos < e1 && e1 <= buf.len()) {
        return Err(WampError::MalformedData);
    }
    if contains_key(acc, &key) {
        return Err(WampError::MalformedData);
    }
    match WampData::deserialize_with(buf, e1) {
        Ok((v, e2)) => {
            if !(e1 < e2 && e2 <= buf.len()) {
                return Err(WampError::MalformedData);
            }
            let ghost before = acc@;
            let ghost entry = (key@, v@);
            acc.push((key, v));
            assert(entries_view(acc@) =~= entries_view(before).push(entry));
            Ok(e2)
        },
        Err(x) => Err(x),
    }
}

/// Decodes `n` entries from `pos` into `acc`.
fn decode_entries_at(buf: &[u8], pos: usize, n: u64, acc: &mut Vec<(String, WampData)>) -> (r: Result<usize, WampError>)
    requires
        pos <= buf@.len(),
    ensures
        match decode_entries(buf@, pos as int, n as nat, entries_view(old(acc)@)) {
            Ok((es, e)) => r is Ok && r->Ok_0 == e && entries_view(final(acc)@) == es,
            Err(x) => r == Err::<usize, WampError>(x),
        },
    decreases buf@.len() - pos, 2int,
{
    let mut cur = pos;
    let mut i: u64 = 0;
    while i < n
        invariant
            pos <= cur <= buf@.len(),
            i <= n,
            decode_entries(buf@, pos as int, n as nat, entries_view(old(acc)@)) == decode_entries(
                buf@,
                cur as int,
                (n - i) as nat,
                entries_view(acc@),
            ),
        decreases n - i,
    {
        let ghost acc_before = acc@;
        match decode_entry_at(buf, cur, acc) {
            Ok(e) => {
                assert(decode_entries(buf@, cur as int, (n - i) as nat, entries_view(acc_before))
                    == decode_entries(buf@, e as int, (n - i - 1) as nat, entries_view(acc@)));
                cur = e;
                i = i + 1;
            },
            Err(x) => {
                return Err(x);
            },
        }
    }
    Ok(cur)
}

/// Decodes entries from `pos` up to a break marker into `acc`.
fn decode_entries_indef_at(buf: &[u8], pos: usize, acc: &mut Vec<(String, WampData)>) -> (r: Result<usize, WampError>)
    requires
        pos <= buf@.len(),
    ensures
        match decode_entries_indef(buf@, pos as int, entries_view(old(acc)@)) {
            Ok((es, e)) => r is Ok && r->Ok_0 == e && entries_view(final(acc)@) == es,
            Err(x) => r == Err::<usize, WampError>(x),
        },
    decreases buf@.len() - pos, 2int,
{
    let mut cur = pos;
    loop
        invariant
            pos <= cur <= buf@.len(),
            decode_entries_indef(buf@, pos as int, entries_view(old(acc)@)) == decode_entries_indef(
                buf@,
                cur as int,
                entries_view(acc@),
            ),
        decreases buf@.len() - cur,
    {
        if cur >= buf.len() {
            return Err(WampError::MalformedData);
        }
        if buf[cur] == 0xff {
            return Ok(cur + 1);
        }
        let ghost acc_before = acc@;
        match decode_entry_at(buf, cur, acc) {
            Ok(e) => {
                assert(decode_entries_indef(buf@, cur as int, entries_view(acc_before))
                    == decode_entries_indef(buf@, e as int, entries_view(acc@)));
                cur = e;
            },
            Err(x) => {
                return Err(x);
            },
        }
    }
}

impl WampData {
    /// Decodes the value whose encoding starts at `pos` in `buf`, and returns it
    /// with the position after it.
    pub fn deserialize_with(buf: &[u8], pos: usize) -> (r: Result<(WampData, usize), WampError>)
        ensures
            match decode_item(buf@, pos as int) {
                Ok((v, e)) => r is Ok && r->Ok_0.0@ == v && r->Ok_0.1 == e,
                Err(x) => r == Err::<(WampData, usize), WampError>(x),
            },
        decreases buf@.len() - pos, 0int,
    {
        let k = match read_kind(buf, pos) {
            Ok(k) => k,
            Err(_) => {
                return Err(WampError::MalformedData);
            },
        };
        proof {
            lemma_head_arg_bound(buf@, pos as int);
        }
        match k {
            CborKind::Unsigned => match read_u64(buf, pos) {
                Ok((a, e)) => Ok((WampData::UInt(a), e)),
                Err(_) => Err(WampError::MalformedData),
            },
            CborKind::Negative => match read_negative(buf, pos) {
                Ok((a, e)) => Ok((WampData::Int(a), e)),
                Err(_) => Err(WampError::MalformedData),
            },
            CborKind::Double => {
                if buf.len() >= 9 && pos <= buf.len() - 9 {
                    let bits = read_u64_be(slice_subrange(buf, pos + 1, pos + 9));
                    proof {
                        lemma_be_value_bound(buf@.subrange(pos + 1, pos + 9));
                        reveal_with_fuel(pow256, 9);
                        assert(buf@.subrange(pos + 1, pos + 9).subrange(0, 8) =~= buf@.subrange(
                            pos + 1,
                            pos + 9,
                        ));
                    }
                    Ok((WampData::Float(bits), pos + 9))
                } else {
                    Err(WampError::MalformedData)
                }
            },
            CborKind::Narrow => {
                if buf[pos] == 0xf9 {
                    if buf.len() >= 3 && pos <= buf.len() - 3 {
                        let raw = (buf[pos + 1] as u16) * 256 + buf[pos + 2] as u16;
                        proof {
                            lemma_be_value_2(buf@.subrange(pos + 1, pos + 3));
                        }
                        Ok((WampData::Float(widen_half_bits(raw)), pos + 3))
                    } else {
                        Err(WampError::MalformedData)
                    }
                } else if buf.len() >= 5 && pos <= buf.len() - 5 {
                    let raw = (((buf[pos + 1] as u32) * 256 + buf[pos + 2] as u32) * 256
                        + buf[pos + 3] as u32) * 256 + buf[pos + 4] as u32;
                    proof {
                        lemma_be_value_4(buf@.subrange(pos + 1, pos + 5));
                    }
                    Ok((WampData::Float(widen_single_bits(raw)), pos + 5))
                } else {
                    Err(WampError::MalformedData)
                }
            },
            CborKind::Bool => Ok((WampData::Bool(buf[pos] == 0xf5), pos + 1)),
            CborKind::Null => {
                if pos < buf.len() {
                    Ok((WampData::Null, pos + 1))
                } else {
                    Err(WampError::MalformedData)
                }
            },
            CborKind::Text => match decode_text_at(buf, pos) {
                Ok((t, e)) => Ok((WampData::Str(t), e)),
                Err(x) => Err(x),
            },
            CborKind::Array => {
                let (n, e) = match read_array_head(buf, pos) {
                    Ok(h) => h,
                    Err(_) => {
                        return Err(WampError::MalformedData);
                    },
                };
                let got = match n {
                    Some(n) => decode_items_at(buf, e, n),
                    None => decode_items_indef_at(buf, e),
                };
                match got {
                    Ok((items, end)) => {
                        proof {
                            lemma_array_view(items, pos);
                        }
                        Ok((WampData::Array(items, pos), end))
                    },
                    Err(x) => Err(x),
                }
            },
            CborKind::Dict => {
                let (n, e) = match read_map_head(buf, pos) {
                    Ok(h) => h,
                    Err(_) => {
                        return Err(WampError::MalformedData);
                    },
                };
                let mut entries: Vec<(String, WampData)> = Vec::new();
                proof {
                    assert(entries_view(entries@) =~= Seq::empty());
                }
                let got = match n {
                    Some(n) => decode_entries_at(buf, e, n, &mut entries),
                    None => decode_entries_indef_at(buf, e, &mut entries),
                };
                match got {
                    Ok(end) => {
                        proof {
                            lemma_hash_view(entries, pos);
                        }
                        Ok((WampData::Hash(entries, pos), end))
                    },
                    Err(x) => Err(x),
                }
            },
            CborKind::Break => Err(WampError::MalformedData),
            _ => Err(WampError::UnsupportedType),
        }
    }

    /// Decodes the value whose encoding starts at the beginning of `data`.
    pub fn from_slice(data: &[u8]) -> (r: Result<WampData, WampError>)
        ensures
            match decode_item(data@, 0) {
                Ok((v, _)) => r is Ok && r->Ok_0@ == v,
                Err(x) => r == Err::<WampData, WampError>(x),
            },
    {
        match WampData::deserialize_with(data, 0) {
            Ok((v, _)) => Ok(v),
            Err(x) => Err(x),
        }
    }
}


impl WampData {
    /// The value held under `key`, when this value is a map.
    pub fn h(&self, key: &str) -> (r: Result<&WampData, WampError>)
        ensures
            match self@ {
                WampValue::Hash(es, _) => if has_key(es, key@) {
                    r is Ok && exists|i: int|
                        0 <= i < es.len() && es[i].0 == key@ && r->Ok_0@ == es[i].1 && (forall|j: int|
                            0 <= j < i ==> es[j].0 != key@)
                } else {
                    r == Err::<&WampData, WampError>(WampError::MissingKey)
                },
                _ => r == Err::<&WampData, WampError>(WampError::NotHash),
            },
    {
        match self {
            WampData::Hash(entries, _) => {
                proof {
                    lemma_hash_view(*entries, 0);
                }
                let wanted = String::from_str(key);
                let mut i: usize = 0;
                while i < entries.len()
                    invariant
                        i <= entries@.len(),
                        wanted@ == key@,
                        self@ matches WampValue::Hash(es, _) && es == entries_view(entries@),
                        forall|j: int| 0 <= j < i ==> entries@[j].0@ != key@,
                    decreases entries@.len() - i,
                {
                    if entries[i].0 == wanted {
                        proof {
                            let es = entries_view(entries@);
                            assert(es[i as int].0 == key@ && es[i as int].1 == entries@[i as int].1@);
                            assert forall|j: int| 0 <= j < i implies es[j].0 != key@ by {
                                assert(es[j].0 == entries@[j].0@);
                            }
                        }
                        return Ok(&entries[i].1);
                    }
                    i = i + 1;
                }
                proof {
                    let es = entries_view(entries@);
                    assert forall|j: int| 0 <= j < es.len() implies #[trigger] es[j].0 != key@ by {
                        assert(es[j].0 == entries@[j].0@);
                    }
                }
                Err(WampError::MissingKey)
            },
            _ => Err(WampError::NotHash),
        }
    }

    /// The element at `i`, when this value is an array.
    pub fn a(&self, i: usize) -> (r: Result<&WampData, WampError>)
        ensures
            match self@ {
                WampValue::Array(items, _) => if i < items.len() {
                    r is Ok && r->Ok_0@ == items[i as int]
                } else {
                    r == Err::<&WampData, WampError>(WampError::IndexOutOfRange)
                },
                _ => r == Err::<&WampData, WampError>(WampError::NotArray),
            },
    {
        match self {
            WampData::Array(items, _) => {
                if i < items.len() {
                    Ok(&items[i])
                } else {
                    Err(WampError::IndexOutOfRange)
                }
            },
            _ => Err(WampError::NotArray),
        }
    }

    /// The unsigned integer this value holds.
    pub fn as_u64(&self) -> (r: Result<u64, WampError>)
        ensures
            match self@ {
                WampValue::UInt(u) => r == Ok::<u64, WampError>(u as u64),
                _ => r == Err::<u64, WampError>(WampError::IncorrectElementType),
            },
    {
        match self {
            WampData::UInt(v) => Ok(*v),
            _ => Err(WampError::IncorrectElementType),
        }
    }

    /// Decodes again, from `buf`, the array or map that this value was decoded
    /// from, starting at the position it recorded; `buf` must be the buffer it
    /// was decoded from for the result to be that value.
    pub fn decode_with(&self, buf: &[u8]) -> (r: Result<WampData, WampError>)
        ensures
            match self@ {
                WampValue::Array(_, off) | WampValue::Hash(_, off) => match decode_item(buf@, off as int) {
                    Ok((v, _)) => r is Ok && r->Ok_0@ == v,
                    Err(x) => r == Err::<WampData, WampError>(x),
                },
                _ => r == Err::<WampData, WampError>(WampError::InvalidField),
            },
    {
        match self {
            WampData::Array(_, offset) | WampData::Hash(_, offset) => {
                match WampData::deserialize_with(buf, *offset) {
                    Ok((v, _)) => Ok(v),
                    Err(x) => Err(x),
                }
            },
            _ => Err(WampError::InvalidField),
        }
    }
}


impl From<u64> for WampData {
    fn from(v: u64) -> (r: WampData) {
        WampData::UInt(v)
    }
}

impl vstd::std_specs::convert::FromSpecImpl<u64> for WampData {
    open spec fn obeys_from_spec() -> bool {
        true
    }

    open spec fn from_spec(v: u64) -> WampData {
        WampData::UInt(v)
    }
}

impl From<i64> for WampData {
    fn from(v: i64) -> (r: WampData) {
        WampData::Int(v)
    }
}

impl vstd::std_specs::convert::FromSpecImpl<i64> for WampData {
    open spec fn obeys_from_spec() -> bool {
        true
    }

    open spec fn from_spec(v: i64) -> WampData {
        WampData::Int(v)
    }
}

impl From<u32> for WampData {
    fn from(v: u32) -> (r: WampData) {
        WampData::UInt(v as u64)
    }
}

impl vstd::std_specs::convert::FromSpecImpl<u32> for WampData {
    open spec fn obeys_from_spec() -> bool {
        true
    }

    open spec fn from_spec(v: u32) -> WampData {
        WampData::UInt(v as u64)
    }
}

impl From<i32> for WampData {
    fn from(v: i32) -> (r: WampData) {
        WampData::Int(v as i64)
    }
}

impl vstd::std_specs::convert::FromSpecImpl<i32> for WampData {
    open spec fn obeys_from_spec() -> bool {
        true
    }

    open spec fn from_spec(v: i32) -> WampData {
        WampData::Int(v as i64)
    }
}

impl From<bool> for WampData {
    fn from(v: bool) -> (r: WampData) {
        WampData::Bool(v)
    }
}

impl vstd::std_specs::convert::FromSpecImpl<bool> for WampData {
    open spec fn obeys_from_spec() -> bool {
        true
    }

    open spec fn from_spec(v: bool) -> WampData {
        WampData::Bool(v)
    }
}

impl From<String> for WampData {
    fn from(v: String) -> (r: WampData) {
        WampData::Str(v)
    }
}

impl vstd::std_specs::convert::FromSpecImpl<String> for WampData {
    open spec fn obeys_from_spec() -> bool {
        true
    }

    open spec fn from_spec(v: String) -> WampData {
        WampData::Str(v)
    }
}


impl WampData {
    /// Wraps an application item: its own encoding is taken now and written
    /// as it is wherever the value is encoded.
    pub fn serializable<T: WampSerializable>(item: &T) -> (r: WampData)
        ensures
            r@ == WampValue::Serializable(item.encoded()@),
    {
        let mut w = WampWrite { buffer: Vec::new() };
        item.encode(&mut w);
        assert(w.buffer@ =~= item.encoded()@);
        WampData::Serializable(w.buffer)
    }
}


impl WampData {
    /// A text value holding `s`.
    pub fn text(s: &str) -> (r: WampData)
        ensures
            r@ == WampValue::Str(s@),
    {
        WampData::Str(String::from_str(s))
    }

    /// The position where an array's or map's encoding began in the buffer it
    /// was decoded from; `None` for any other value.
    pub fn offset(&self) -> (r: Option<usize>)
        ensures
            match self@ {
                WampValue::Array(_, off) | WampValue::Hash(_, off) => r == Some(off as usize),
                _ => r is None,
            },
    {
        match self {
            WampData::Array(_, off) | WampData::Hash(_, off) => Some(*off),
            _ => None,
        }
    }
}

/// The keys of every map in `v`, at every depth, are unique.
pub open spec fn unique_keys(v: WampValue) -> bool
    decreases v,
{
    match v {
        WampValue::Array(items, _) => forall|i: int|
            0 <= i < items.len() ==> unique_keys(#[trigger] items[i]),
        WampValue::Hash(entries, _) => {
            &&& forall|i: int, j: int|
                0 <= i < j < entries.len() ==> #[trigger] entries[i].0 != #[trigger] entries[j].0
            &&& forall|i: int| 0 <= i < entries.len() ==> unique_keys(#[trigger] entries[i].1)
        },
        _ => true,
    }
}

impl WampData {
    /// Whether the keys of every map in this value, at every depth, are
    /// unique: the values the encoding can carry there and back.
    pub fn has_unique_keys(&self) -> (r: bool)
        ensures
            r == unique_keys(self@),
        decreases self,
    {
        match self {
            WampData::Array(items, _) => {
                let ghost m = self@->Array_0;
                let mut i: usize = 0;
                while i < items.len()
                    invariant
                        i <= items@.len(),
                        m == self@->Array_0,
                        self matches WampData::Array(its, _) && its@ == items@,
                        m.len() == items@.len(),
                        forall|j: int| 0 <= j < m.len() ==> m[j] == #[trigger] items@[j]@,
                        forall|j: int| 0 <= j < i ==> unique_keys(#[trigger] m[j]),
                    decreases items@.len() - i,
                {
                    if !items[i].has_unique_keys() {
                        assert(!unique_keys(m[i as int]));
                        return false;
                    }
                    i = i + 1;
                }
                true
            },
            WampData::Hash(entries, _) => {
                let ghost m = self@->Hash_0;
                let mut i: usize = 0;
                while i < entries.len()
                    invariant
                        i <= entries@.len(),
                        m == self@->Hash_0,
                        self matches WampData::Hash(es, _) && es@ == entries@,
                        m.len() == entries@.len(),
                        forall|j: int|
                            0 <= j < m.len() ==> m[j] == (entries@[j].0@, #[trigger] entries@[j].1@),
                        forall|j: int| 0 <= j < i ==> unique_keys(#[trigger] m[j].1),
                        forall|a: int, b: int| 0 <= a < b < i ==> #[trigger] m[a].0 != #[trigger] m[b].0,
                    decreases entries@.len() - i,
                {
                    if !entries[i].1.has_unique_keys() {
                        assert(!unique_keys(m[i as int].1));
                        return false;
                    }
                    let mut j: usize = 0;
                    while j < i
                        invariant
                            j <= i < entries@.len(),
                            m == self@->Hash_0,
                            self matches WampData::Hash(es, _) && es@ == entries@,
                            m.len() == entries@.len(),
                            forall|k: int|
                                0 <= k < m.len() ==> m[k] == (entries@[k].0@, #[trigger] entries@[k].1@),
                            forall|a: int| 0 <= a < j ==> #[trigger] entries@[a].0@ != entries@[i as int].0@,
                        decreases i - j,
                    {
                        if entries[j].0 == entries[i].0 {
                            assert(m[j as int] == (entries@[j as int].0@, entries@[j as int].1@));
                            assert(m[i as int] == (entries@[i as int].0@, entries@[i as int].1@));
                            assert(m[j as int].0 == m[i as int].0);
                            proof {
                                if unique_keys(self@) {
                                    assert(self@ matches WampValue::Hash(es, _) && es == m);
                                    assert(m[j as int].0 != m[i as int].0);
                                }
                            }
                            return false;
                        }
                        j = j + 1;
                    }
                    proof {
                        assert forall|a: int, b: int| 0 <= a < b < i + 1 implies #[trigger] m[a].0
                            != #[trigger] m[b].0 by {
                            if b == i {
                                assert(m[a].0 == entries@[a].0@);
                            }
                        }
                    }
                    i = i + 1;
                }
                true
            },
            _ => true,
        }
    }
}


impl From<u16> for WampData {
    fn from(v: u16) -> (r: WampData) {
        WampData::UInt(v as u64)
    }
}

impl vstd::std_specs::convert::FromSpecImpl<u16> for WampData {
    open spec fn obeys_from_spec() -> bool {
        true
    }

    open spec fn from_spec(v: u16) -> WampData {
        WampData::UInt(v as u64)
    }
}

impl From<u8> for WampData {
    fn from(v: u8) -> (r: WampData) {
        WampData::UInt(v as u64)
    }
}

impl vstd::std_specs::convert::FromSpecImpl<u8> for WampData {
    open spec fn obeys_from_spec() -> bool {
        true
    }

    open spec fn from_spec(v: u8) -> WampData {
        WampData::UInt(v as u64)
    }
}

impl From<i16> for WampData {
    fn from(v: i16) -> (r: WampData) {
        WampData::Int(v as i64)
    }
}

impl vstd::std_specs::convert::FromSpecImpl<i16> for WampData {
    open spec fn obeys_from_spec() -> bool {
        true
    }

    open spec fn from_spec(v: i16) -> WampData {
        WampData::Int(v as i64)
    }
}

impl From<i8> for WampData {
    fn from(v: i8) -> (r: WampData) {
        WampData::Int(v as i64)
    }
}

impl vstd::std_specs::convert::FromSpecImpl<i8> for WampData {
    open spec fn obeys_from_spec() -> bool {
        true
    }

    open spec fn from_spec(v: i8) -> WampData {
        WampData::Int(v as i64)
    }
}

} // verus!
