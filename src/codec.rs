//! The row codec: a self-describing, length-prefixed binary form of a document.
//!
//! A document is the concatenation of its fields. A field is its name as text,
//! then a tag byte and a payload: `0` null; `1` boolean, one byte `0` or `1`;
//! `2` number and `3` string, each followed by text. Text is the UTF-8 byte
//! count as eight little-endian bytes, then the bytes.
use vstd::prelude::*;
use vstd::utf8::{decode_utf8, encode_utf8, valid_utf8, encode_utf8_decode_utf8, encode_utf8_valid_utf8};
use crate::bytes::{le_bytes, le_value, lemma_le_round_trip, push_text, push_u64, read_u64, text_at};
use crate::types::{DataValue, DocView, Document, Field, ValueView};

verus! {

/// Text as its byte count and UTF-8 bytes.
pub open spec fn text_bytes(t: Seq<char>) -> Seq<u8> {
    le_bytes(encode_utf8(t).len() as u64) + encode_utf8(t)
}

/// The tag and payload of a value.
pub open spec fn value_bytes(v: ValueView) -> Seq<u8> {
    match v {
        ValueView::Null => seq![0u8],
        ValueView::Boolean(b) => seq![1u8, if b { 1u8 } else { 0u8 }],
        ValueView::Number(t) => seq![2u8] + text_bytes(t),
        ValueView::Text(t) => seq![3u8] + text_bytes(t),
    }
}

/// A field as its name followed by its value.
pub open spec fn field_bytes(f: (Seq<char>, ValueView)) -> Seq<u8> {
    text_bytes(f.0) + value_bytes(f.1)
}

/// The encoding of a document: its fields' encodings in order.
pub open spec fn encode_spec(d: DocView) -> Seq<u8>
    decreases d.len(),
{
    if d.len() == 0 {
        Seq::empty()
    } else {
        encode_spec(d.drop_last()) + field_bytes(d.last())
    }
}

/// A text fits the format when its byte count fits in eight bytes.
pub open spec fn text_fits(t: Seq<char>) -> bool {
    encode_utf8(t).len() <= u64::MAX
}

pub open spec fn value_fits(v: ValueView) -> bool {
    match v {
        ValueView::Number(t) => text_fits(t),
        ValueView::Text(t) => text_fits(t),
        _ => true,
    }
}

/// A document can be encoded when each of its texts fits the format.
pub open spec fn doc_fits(d: DocView) -> bool {
    forall|i: int| 0 <= i < d.len() ==> text_fits(#[trigger] d[i].0) && value_fits(d[i].1)
}

/// Reads a text at the start of `b`: the text and the bytes it took.
pub open spec fn parse_text(b: Seq<u8>) -> Option<(Seq<char>, int)> {
    if b.len() < 8 {
        None
    } else {
        let n = le_value(b) as int;
        if 8 + n > b.len() {
            None
        } else if valid_utf8(b.subrange(8, 8 + n)) {
            Some((decode_utf8(b.subrange(8, 8 + n)), 8 + n))
        } else {
            None
        }
    }
}

/// Reads a tagged value at the start of `b`: the value and the bytes it took.
pub open spec fn parse_value(b: Seq<u8>) -> Option<(ValueView, int)> {
    if b.len() == 0 {
        None
    } else if b[0] == 0 {
        Some((ValueView::Null, 1))
    } else if b[0] == 1 {
        if b.len() < 2 || b[1] > 1 {
            None
        } else {
            Some((ValueView::Boolean(b[1] == 1), 2))
        }
    } else if b[0] == 2 || b[0] == 3 {
        match parse_text(b.drop_first()) {
            Some((t, k)) => Some((if b[0] == 2 { ValueView::Number(t) } else { ValueView::Text(t) }, k + 1)),
            None => None,
        }
    } else {
        None
    }
}

/// Reads a field at the start of `b`: the field and the bytes it took.
pub open spec fn parse_field(b: Seq<u8>) -> Option<((Seq<char>, ValueView), int)> {
    match parse_text(b) {
        Some((name, k)) => match parse_value(b.subrange(k, b.len() as int)) {
            Some((v, j)) => Some(((name, v), k + j)),
            None => None,
        },
        None => None,
    }
}

/// Decoding: fields one after another until the bytes are used up.
pub open spec fn decode_spec(b: Seq<u8>) -> Option<DocView>
    decreases b.len(),
{
    if b.len() == 0 {
        Some(Seq::empty())
    } else {
        match parse_field(b) {
            Some((f, k)) => if 0 < k <= b.len() {
                match decode_spec(b.subrange(k, b.len() as int)) {
                    Some(rest) => Some(seq![f] + rest),
                    None => None,
                }
            } else {
                None
            },
            None => None,
        }
    }
}

proof fn lemma_parse_field_len(b: Seq<u8>)
    ensures
        parse_field(b) matches Some((f, k)) ==> 9 <= k <= b.len(),
{
}

proof fn lemma_parse_text(t: Seq<char>, rest: Seq<u8>)
    requires
        text_fits(t),
    ensures
        parse_text(text_bytes(t) + rest) == Some((t, text_bytes(t).len() as int)),
{
    let e = encode_utf8(t);
    let b = text_bytes(t) + rest;
    lemma_le_round_trip(e.len() as u64);
    assert(b.subrange(0, 8) =~= le_bytes(e.len() as u64));
    assert(le_value(b) == le_value(b.subrange(0, 8)));
    assert(b.subrange(8, 8 + e.len() as int) =~= e);
    encode_utf8_decode_utf8(t);
    encode_utf8_valid_utf8(t);
}

proof fn lemma_parse_value(v: ValueView, rest: Seq<u8>)
    requires
        value_fits(v),
    ensures
        parse_value(value_bytes(v) + rest) == Some((v, value_bytes(v).len() as int)),
{
    let b = value_bytes(v) + rest;
    match v {
        ValueView::Number(t) => {
            lemma_parse_text(t, rest);
            assert(b.drop_first() =~= text_bytes(t) + rest);
        },
        ValueView::Text(t) => {
            lemma_parse_text(t, rest);
            assert(b.drop_first() =~= text_bytes(t) + rest);
        },
        _ => {},
    }
}

proof fn lemma_parse_field(f: (Seq<char>, ValueView), rest: Seq<u8>)
    requires
        text_fits(f.0),
        value_fits(f.1),
    ensures
        parse_field(field_bytes(f) + rest) == Some((f, field_bytes(f).len() as int)),
{
    let b = field_bytes(f) + rest;
    lemma_parse_text(f.0, value_bytes(f.1) + rest);
    assert(b =~= text_bytes(f.0) + (value_bytes(f.1) + rest));
    let k = text_bytes(f.0).len() as int;
    assert(b.subrange(k, b.len() as int) =~= value_bytes(f.1) + rest);
    lemma_parse_value(f.1, rest);
}

/// The encoding of a document is its first field's followed by the rest's.
proof fn lemma_encode_first(d: DocView)
    requires
        d.len() > 0,
    ensures
        encode_spec(d) =~= field_bytes(d[0]) + encode_spec(d.drop_first()),
    decreases d.len(),
{
    if d.len() > 1 {
        lemma_encode_first(d.drop_last());
        assert(d.drop_last().drop_first() =~= d.drop_first().drop_last());
        assert(d.drop_last()[0] == d[0]);
    } else {
        assert(d.drop_last() =~= Seq::<(Seq<char>, ValueView)>::empty());
        assert(d.drop_first() =~= Seq::<(Seq<char>, ValueView)>::empty());
    }
}

/// Decoding the encoding of a document gives the document back.
#[verifier::rlimit(40)]
pub proof fn lemma_round_trip(d: DocView)
    requires
        doc_fits(d),
    ensures
        decode_spec(encode_spec(d)) == Some(d),
    decreases d.len(),
{
    if d.len() == 0 {
        assert(d =~= Seq::<(Seq<char>, ValueView)>::empty());
    } else {
        let b = encode_spec(d);
        let rest = d.drop_first();
        assert(doc_fits(rest)) by {
            assert forall|i: int| 0 <= i < rest.len() implies text_fits(#[trigger] rest[i].0) && value_fits(rest[i].1) by {
                assert(rest[i] == d[i + 1]);
            }
        }
        lemma_encode_first(d);
        lemma_parse_field(d[0], encode_spec(rest));
        lemma_round_trip(rest);
        let k = field_bytes(d[0]).len() as int;
        assert(b.subrange(k, b.len() as int) =~= encode_spec(rest));
        assert(seq![d[0]] + rest =~= d);
    }
}

/// Appends a text as its byte count and bytes.
fn push_text_field(out: &mut Vec<u8>, s: &str)
    ensures
        final(out)@ == old(out)@ + text_bytes(s@),
        text_fits(s@),
{
    let n = s.as_bytes().len();
    push_u64(out, n as u64);
    push_text(out, s);
    proof {
        assert(final(out)@ =~= old(out)@ + text_bytes(s@));
    }
}

/// Appends the tag and payload of a value.
fn push_value(out: &mut Vec<u8>, v: &DataValue)
    ensures
        final(out)@ == old(out)@ + value_bytes(v@),
        value_fits(v@),
{
    match v {
        DataValue::Null => {
            out.push(0u8);
        },
        DataValue::Boolean(b) => {
            out.push(1u8);
            out.push(if *b { 1u8 } else { 0u8 });
        },
        DataValue::Number(t) => {
            out.push(2u8);
            push_text_field(out, t.as_str());
        },
        DataValue::String(t) => {
            out.push(3u8);
            push_text_field(out, t.as_str());
        },
    }
    proof {
        assert(final(out)@ =~= old(out)@ + value_bytes(v@));
    }
}

/// Serializes a document.
pub fn encode_document(d: &Document) -> (r: Vec<u8>)
    ensures
        r@ == encode_spec(d@),
        doc_fits(d@),
{
    let mut out: Vec<u8> = Vec::new();
    let mut i: usize = 0;
    proof {
        assert(d@.subrange(0, 0) =~= Seq::<(Seq<char>, ValueView)>::empty());
    }
    while i < d.fields.len()
        invariant
            i <= d.fields@.len(),
            out@ == encode_spec(d@.subrange(0, i as int)),
            forall|j: int| 0 <= j < i ==> text_fits(#[trigger] d@[j].0) && value_fits(d@[j].1),
        decreases d.fields.len() - i,
    {
        push_text_field(&mut out, d.fields[i].name.as_str());
        push_value(&mut out, &d.fields[i].value);
        proof {
            let p = d@.subrange(0, i + 1);
            assert(p.drop_last() =~= d@.subrange(0, i as int));
            assert(p.last() == (d.fields@[i as int].name@, d.fields@[i as int].value@));
            assert(d@[i as int] == (d.fields@[i as int].name@, d.fields@[i as int].value@));
            assert forall|j: int| 0 <= j < i + 1 implies text_fits(#[trigger] d@[j].0) && value_fits(d@[j].1) by {
                if j == i {
                    assert(d@[j] == (d.fields@[i as int].name@, d.fields@[i as int].value@));
                }
            }
        }
        i = i + 1;
    }
    proof {
        assert(d@.subrange(0, i as int) =~= d@);
        assert(d@.len() == d.fields@.len());
        assert forall|j: int| 0 <= j < d@.len() implies text_fits(#[trigger] d@[j].0) && value_fits(d@[j].1) by {
            assert(j < i);
        }
    }
    out
}

/// Reads a text at `pos`: the text and the bytes it took.
fn read_text(b: &Vec<u8>, pos: usize) -> (r: Option<(String, usize)>)
    requires
        pos <= b@.len(),
    ensures
        match r {
            Some((t, k)) => parse_text(b@.subrange(pos as int, b@.len() as int)) == Some((t@, k as int))
                && pos + k <= b@.len(),
            None => parse_text(b@.subrange(pos as int, b@.len() as int)) is None,
        },
{
    let ghost sub = b@.subrange(pos as int, b@.len() as int);
    let len = b.len();
    if len - pos < 8 {
        return None;
    }
    let n = read_u64(b, pos);
    proof {
        assert(b@.subrange(pos as int, pos + 8) =~= sub.subrange(0, 8));
        assert(le_value(sub) == le_value(sub.subrange(0, 8)));
    }
    if n > (len - pos - 8) as u64 {
        return None;
    }
    let end = pos + 8 + n as usize;
    proof {
        assert(sub.subrange(8, 8 + n) =~= b@.subrange(pos + 8, end as int));
    }
    match text_at(b, pos + 8, end) {
        Some(t) => Some((t, 8 + n as usize)),
        None => None,
    }
}

/// Reads a tagged value at `pos`: the value and the bytes it took.
fn read_value(b: &Vec<u8>, pos: usize) -> (r: Option<(DataValue, usize)>)
    requires
        pos <= b@.len(),
    ensures
        match r {
            Some((v, k)) => parse_value(b@.subrange(pos as int, b@.len() as int)) == Some((v@, k as int))
                && pos + k <= b@.len(),
            None => parse_value(b@.subrange(pos as int, b@.len() as int)) is None,
        },
{
    let ghost sub = b@.subrange(pos as int, b@.len() as int);
    let len = b.len();
    if pos == len {
        return None;
    }
    let tag = b[pos];
    assert(sub[0] == tag);
    if tag == 0 {
        Some((DataValue::Null, 1))
    } else if tag == 1 {
        if len - pos < 2 || b[pos + 1] > 1 {
            return None;
        }
        assert(sub[1] == b@[pos + 1]);
        Some((DataValue::Boolean(b[pos + 1] == 1), 2))
    } else if tag == 2 || tag == 3 {
        proof {
            assert(sub.drop_first() =~= b@.subrange(pos + 1, b@.len() as int));
        }
        match read_text(b, pos + 1) {
            Some((t, k)) => {
                if tag == 2 {
                    Some((DataValue::Number(t), k + 1))
                } else {
                    Some((DataValue::String(t), k + 1))
                }
            },
            None => None,
        }
    } else {
        None
    }
}

/// Reads a field at `pos`: the field and the bytes it took.
fn read_field(b: &Vec<u8>, pos: usize) -> (r: Option<(Field, usize)>)
    requires
        pos <= b@.len(),
    ensures
        match r {
            Some((f, k)) => parse_field(b@.subrange(pos as int, b@.len() as int)) == Some(((f.name@, f.value@), k as int))
                && pos + k <= b@.len(),
            None => parse_field(b@.subrange(pos as int, b@.len() as int)) is None,
        },
{
    let ghost sub = b@.subrange(pos as int, b@.len() as int);
    let len = b.len();
    match read_text(b, pos) {
        Some((name, k)) => {
            proof {
                assert(sub.subrange(k as int, sub.len() as int) =~= b@.subrange(pos + k, b@.len() as int));
            }
            match read_value(b, pos + k) {
                Some((value, j)) => Some((Field { name, value }, k + j)),
                None => None,
            }
        },
        None => None,
    }
}

/// Deserializes a document; `None` where the bytes are not an encoding.
pub fn decode_document(b: &Vec<u8>) -> (r: Option<Document>)
    ensures
        match r {
            Some(d) => decode_spec(b@) == Some(d@),
            None => decode_spec(b@) is None,
        },
{
    let mut fields: Vec<Field> = Vec::new();
    let mut pos: usize = 0;
    let len = b.len();
    proof {
        assert(b@.subrange(0, len as int) =~= b@);
        assert(fields@.map_values(|f: Field| (f.name@, f.value@)) =~= Seq::<(Seq<char>, ValueView)>::empty());
    }
    while pos < len
        invariant
            len == b@.len(),
            pos <= len,
            match decode_spec(b@.subrange(pos as int, len as int)) {
                Some(rest) => decode_spec(b@) == Some(fields@.map_values(|f: Field| (f.name@, f.value@)) + rest),
                None => decode_spec(b@) is None,
            },
        decreases len - pos,
    {
        let ghost sub = b@.subrange(pos as int, len as int);
        match read_field(b, pos) {
            Some((f, k)) => {
                proof {
                    lemma_parse_field_len(sub);
                    assert(sub.subrange(k as int, sub.len() as int) =~= b@.subrange(pos + k, len as int));
                }
                let ghost old_fields = fields@;
                fields.push(f);
                pos = pos + k;
                proof {
                    let fv = |f: Field| (f.name@, f.value@);
                    assert(fields@.map_values(fv) =~= old_fields.map_values(fv).push(fv(fields@.last())));
                    match decode_spec(b@.subrange(pos as int, len as int)) {
                        Some(rest) => {
                            assert(old_fields.map_values(fv) + (seq![fv(fields@.last())] + rest)
                                =~= fields@.map_values(fv) + rest);
                        },
                        None => {},
                    }
                }
            },
            None => {
                return None;
            },
        }
    }
    proof {
        let fv = |f: Field| (f.name@, f.value@);
        assert(fields@.map_values(fv) + Seq::<(Seq<char>, ValueView)>::empty() =~= fields@.map_values(fv));
    }
    Some(Document { fields })
}

} // verus!
