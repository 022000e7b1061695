//! Decoder for the sensor-telemetry service-data payload.
//!
//! A payload is one device-information byte followed by a flat run of
//! records, each an object id and a little-endian value whose width comes
//! from a fixed table. There is no framing: an id that the table lacks ends
//! the decoding, as does a record cut short.
use vstd::prelude::*;

use crate::object::Object;

verus! {

/// The 16-bit service-data identifier under which payloads are broadcast.
pub const SERVICE_UUID16: u16 = 0x181c;

/// Whether a device-information byte announces a payload that is decoded:
/// not encrypted (bit 0 clear) and of format version 2 (bits 5 to 7).
pub open spec fn supported_info(info: u8) -> bool {
    info % 2 == 0 && info / 32 == 2
}

/// Width in bytes of the value that follows each object id, or `None` for an
/// id that the table does not hold.
pub open spec fn value_width(id: u8) -> Option<nat> {
    if id == 0x00 || id == 0x01 || id == 0x09 || id == 0x0f || id == 0x10 || id == 0x11 {
        Some(1)
    } else if id == 0x02 || id == 0x03 || id == 0x06 || id == 0x07 || id == 0x08 || id == 0x0c
        || id == 0x0d || id == 0x0e || id == 0x12 || id == 0x13 || id == 0x14 {
        Some(2)
    } else if id == 0x04 || id == 0x05 || id == 0x0a || id == 0x0b {
        Some(3)
    } else {
        None
    }
}

/// An unsigned 16-bit value from two little-endian bytes.
pub open spec fn le_u16(lo: u8, hi: u8) -> int {
    lo + 256 * hi
}

/// A two's-complement 16-bit value from two little-endian bytes.
pub open spec fn le_i16(lo: u8, hi: u8) -> int {
    let u = le_u16(lo, hi);
    if u < 32768 { u } else { u - 65536 }
}

/// The reading that a record with id `id` and value bytes `v` stands for,
/// or `None` for an id whose reading is skipped.
pub open spec fn object_of(id: u8, v: Seq<u8>) -> Option<Object> {
    if id == 0x01 {
        Some(Object::Battery(v[0]))
    } else if id == 0x02 {
        Some(Object::Temperature(le_i16(v[0], v[1]) as i16))
    } else if id == 0x03 {
        Some(Object::Humidity(le_u16(v[0], v[1]) as u16))
    } else if id == 0x0c {
        Some(Object::Voltage(le_u16(v[0], v[1]) as u16))
    } else if id == 0x10 {
        Some(Object::Power(v[0] != 0))
    } else {
        None
    }
}

/// The readings of a run of records, in order.
pub open spec fn decode_records(s: Seq<u8>) -> Seq<Object>
    decreases s.len(),
{
    if s.len() == 0 {
        Seq::empty()
    } else {
        match value_width(s[0]) {
            None => Seq::empty(),
            Some(w) => if s.len() < 1 + w {
                Seq::empty()
            } else {
                let rest = decode_records(s.subrange(1 + w as int, s.len() as int));
                match object_of(s[0], s.subrange(1, 1 + w as int)) {
                    Some(o) => seq![o] + rest,
                    None => rest,
                }
            },
        }
    }
}

/// The readings of a whole payload: none unless its first byte is supported.
pub open spec fn decode_payload(p: Seq<u8>) -> Seq<Object> {
    if p.len() == 0 || !supported_info(p[0]) {
        Seq::empty()
    } else {
        decode_records(p.subrange(1, p.len() as int))
    }
}

/// The two little-endian bytes of a 16-bit value, negative values taken
/// in two's complement.
pub open spec fn le_bytes(v: int) -> Seq<u8> {
    let u = if v < 0 { v + 65536 } else { v };
    seq![(u % 256) as u8, (u / 256) as u8]
}

/// Whether a reading is one that a payload can carry.
pub open spec fn carried(o: Object) -> bool {
    !(o is Rssi)
}

/// The record that carries a reading: its object id, then its value.
pub open spec fn encode_object(o: Object) -> Seq<u8> {
    match o {
        Object::Battery(v) => seq![0x01u8, v],
        Object::Temperature(v) => seq![0x02u8] + le_bytes(v as int),
        Object::Humidity(v) => seq![0x03u8] + le_bytes(v as int),
        Object::Voltage(v) => seq![0x0cu8] + le_bytes(v as int),
        Object::Power(b) => seq![0x10u8, if b { 1u8 } else { 0u8 }],
        Object::Rssi(_) => Seq::empty(),
    }
}

/// The records that carry a sequence of readings, one after the other.
pub open spec fn encode_objects(objs: Seq<Object>) -> Seq<u8>
    decreases objs.len(),
{
    if objs.len() == 0 {
        Seq::empty()
    } else {
        encode_object(objs[0]) + encode_objects(objs.drop_first())
    }
}

proof fn lemma_le_bytes(v: int)
    requires
        -32768 <= v < 65536,
    ensures
        le_u16(le_bytes(v)[0], le_bytes(v)[1]) == if v < 0 { v + 65536 } else { v },
        -32768 <= v < 32768 ==> le_i16(le_bytes(v)[0], le_bytes(v)[1]) == v,
{
}

proof fn lemma_decode_one(o: Object, rest: Seq<u8>)
    requires
        carried(o),
    ensures
        decode_records(encode_object(o) + rest) == seq![o] + decode_records(rest),
{
    let s = encode_object(o) + rest;
    let w = (encode_object(o).len() - 1) as nat;
    assert(s.subrange(1 + w as int, s.len() as int) =~= rest);
    assert(s.subrange(1, 1 + w as int) =~= encode_object(o).drop_first());
    match o {
        Object::Temperature(v) => lemma_le_bytes(v as int),
        Object::Humidity(v) => lemma_le_bytes(v as int),
        Object::Voltage(v) => lemma_le_bytes(v as int),
        _ => {},
    }
}

proof fn lemma_decode_records_round_trip(objs: Seq<Object>)
    requires
        forall|i: int| 0 <= i < objs.len() ==> carried(#[trigger] objs[i]),
    ensures
        decode_records(encode_objects(objs)) == objs,
    decreases objs.len(),
{
    if objs.len() == 0 {
        assert(decode_records(Seq::<u8>::empty()) == Seq::<Object>::empty());
    } else {
        assert(carried(objs[0]));
        let tail = objs.drop_first();
        assert forall|i: int| 0 <= i < tail.len() implies carried(#[trigger] tail[i]) by {
            assert(tail[i] == objs[i + 1]);
        }
        lemma_decode_records_round_trip(tail);
        lemma_decode_one(objs[0], encode_objects(tail));
        assert(seq![objs[0]] + tail =~= objs);
    }
}

/// Decoding a supported payload built from the records of a sequence of
/// readings gives back exactly that sequence, in the same order.
pub proof fn lemma_round_trip(info: u8, objs: Seq<Object>)
    requires
        supported_info(info),
        forall|i: int| 0 <= i < objs.len() ==> carried(#[trigger] objs[i]),
    ensures
        decode_payload(seq![info] + encode_objects(objs)) == objs,
{
    let p = seq![info] + encode_objects(objs);
    assert(p.subrange(1, p.len() as int) =~= encode_objects(objs));
    lemma_decode_records_round_trip(objs);
}

/// Whether `r` is one whole record of a reading that is decoded: a
/// recognized object id followed by exactly as many value bytes as the table
/// gives it, whatever those bytes are.
pub open spec fn valid_record(r: Seq<u8>) -> bool {
    &&& r.len() > 0
    &&& (r[0] == 0x01 || r[0] == 0x02 || r[0] == 0x03 || r[0] == 0x0c || r[0] == 0x10)
    &&& value_width(r[0]) == Some((r.len() - 1) as nat)
}

/// The reading that a whole record stands for.
pub open spec fn record_object(r: Seq<u8>) -> Object {
    object_of(r[0], r.drop_first()).unwrap()
}

/// The readings that a sequence of records stands for, one per record.
pub open spec fn record_objects(recs: Seq<Seq<u8>>) -> Seq<Object> {
    recs.map_values(|r: Seq<u8>| record_object(r))
}

/// The records laid end to end.
pub open spec fn concat_records(recs: Seq<Seq<u8>>) -> Seq<u8>
    decreases recs.len(),
{
    if recs.len() == 0 {
        Seq::empty()
    } else {
        recs[0] + concat_records(recs.drop_first())
    }
}

/// How many of the records, laid end to end, lie wholly within the first
/// `k` bytes.
pub open spec fn whole_records(recs: Seq<Seq<u8>>, k: nat) -> nat
    decreases recs.len(),
{
    if recs.len() == 0 || k < recs[0].len() {
        0
    } else {
        1 + whole_records(recs.drop_first(), (k - recs[0].len()) as nat)
    }
}

proof fn lemma_decode_record(r: Seq<u8>, rest: Seq<u8>)
    requires
        valid_record(r),
    ensures
        decode_records(r + rest) == seq![record_object(r)] + decode_records(rest),
        forall|k: int|
            0 <= k < r.len() ==> #[trigger] decode_records((r + rest).take(k))
                == Seq::<Object>::empty(),
{
    let s = r + rest;
    let w = (r.len() - 1) as int;
    assert(s.subrange(1 + w, s.len() as int) =~= rest);
    assert(s.subrange(1, 1 + w) =~= r.drop_first());
    assert forall|k: int| 0 <= k < r.len() implies #[trigger] decode_records(s.take(k))
        == Seq::<Object>::empty() by {
        if k > 0 {
            assert(s.take(k)[0] == r[0]);
        }
    }
}

proof fn lemma_records_whole(recs: Seq<Seq<u8>>, k: nat)
    requires
        forall|i: int| 0 <= i < recs.len() ==> valid_record(#[trigger] recs[i]),
        k <= concat_records(recs).len(),
    ensures
        decode_records(concat_records(recs).take(k as int)) == record_objects(recs).take(
            whole_records(recs, k) as int,
        ),
        k == concat_records(recs).len() ==> whole_records(recs, k) == recs.len(),
        whole_records(recs, k) <= recs.len(),
    decreases recs.len(),
{
    if recs.len() == 0 {
        assert(concat_records(recs).take(k as int) =~= Seq::<u8>::empty());
        assert(record_objects(recs).take(0) =~= Seq::<Object>::empty());
    } else {
        let r = recs[0];
        let rest = recs.drop_first();
        let c = concat_records(rest);
        assert(valid_record(r));
        assert forall|i: int| 0 <= i < rest.len() implies valid_record(#[trigger] rest[i]) by {
            assert(rest[i] == recs[i + 1]);
        }
        if k >= r.len() {
            let j = (k - r.len()) as nat;
            assert((r + c).take(k as int) =~= r + c.take(j as int));
            lemma_records_whole(rest, j);
            lemma_decode_record(r, c.take(j as int));
            assert forall|i: int| 0 <= i < rest.len() implies #[trigger] record_objects(rest)[i]
                == record_objects(recs)[i + 1] by {
                assert(rest[i] == recs[i + 1]);
            }
            assert(record_objects(recs).take(1 + whole_records(rest, j) as int) =~= seq![
                record_object(r),
            ] + record_objects(rest).take(whole_records(rest, j) as int));
        } else {
            lemma_decode_record(r, c);
            assert(decode_records((r + c).take(k as int)) == Seq::<Object>::empty());
            assert(record_objects(recs).take(0) =~= Seq::<Object>::empty());
        }
    }
}

/// Decoding a supported payload built from whole records, whatever their
/// value bytes, gives the reading of each record, in the same order.
pub proof fn lemma_round_trip_records(info: u8, recs: Seq<Seq<u8>>)
    requires
        supported_info(info),
        forall|i: int| 0 <= i < recs.len() ==> valid_record(#[trigger] recs[i]),
    ensures
        decode_payload(seq![info] + concat_records(recs)) == record_objects(recs),
{
    let c = concat_records(recs);
    let p = seq![info] + c;
    assert(p.subrange(1, p.len() as int) =~= c.take(c.len() as int));
    lemma_records_whole(recs, c.len());
    assert(record_objects(recs).take(recs.len() as int) =~= record_objects(recs));
}

/// Decoding the first `n` bytes of a supported payload built from whole
/// records gives the readings of exactly the records that lie wholly within
/// those bytes; only a record cut by the end is lost.
pub proof fn lemma_truncation_count(info: u8, recs: Seq<Seq<u8>>, n: nat)
    requires
        supported_info(info),
        forall|i: int| 0 <= i < recs.len() ==> valid_record(#[trigger] recs[i]),
        1 <= n <= 1 + concat_records(recs).len(),
    ensures
        decode_payload((seq![info] + concat_records(recs)).take(n as int)) == record_objects(
            recs,
        ).take(whole_records(recs, (n - 1) as nat) as int),
{
    let c = concat_records(recs);
    let t = (seq![info] + c).take(n as int);
    assert(t[0] == info);
    assert(t.subrange(1, t.len() as int) =~= c.take(n - 1));
    lemma_records_whole(recs, (n - 1) as nat);
}

proof fn lemma_records_prefix(s: Seq<u8>, n: nat)
    requires
        n <= s.len(),
    ensures
        decode_records(s.take(n as int)).is_prefix_of(decode_records(s)),
    decreases s.len(),
{
    let t = s.take(n as int);
    if n == 0 {
        assert(t.len() == 0);
    } else {
        assert(t[0] == s[0]);
        match value_width(s[0]) {
            None => {},
            Some(w) => {
                if n >= 1 + w {
                    let rs = s.subrange(1 + w as int, s.len() as int);
                    let k = (n - 1 - w) as nat;
                    assert(t.subrange(1 + w as int, t.len() as int) =~= rs.take(k as int));
                    assert(t.subrange(1, 1 + w as int) =~= s.subrange(1, 1 + w as int));
                    lemma_records_prefix(rs, k);
                    let a = decode_records(rs.take(k as int));
                    let b = decode_records(rs);
                    match object_of(s[0], s.subrange(1, 1 + w as int)) {
                        Some(o) => {
                            assert((seq![o] + a) =~= (seq![o] + b).subrange(0, 1 + a.len() as int));
                        },
                        None => {},
                    }
                }
            },
        }
    }
}

/// Decoding any prefix of a payload gives a prefix of the readings of the
/// whole payload.
pub proof fn lemma_truncation(p: Seq<u8>, n: nat)
    requires
        n <= p.len(),
    ensures
        decode_payload(p.take(n as int)).is_prefix_of(decode_payload(p)),
{
    let t = p.take(n as int);
    if n > 0 && supported_info(p[0]) {
        assert(t[0] == p[0]);
        let body = p.subrange(1, p.len() as int);
        assert(t.subrange(1, t.len() as int) =~= body.take(n - 1));
        lemma_records_prefix(body, (n - 1) as nat);
    }
}

fn width_of(id: u8) -> (r: Option<usize>)
    ensures
        match value_width(id) {
            None => r.is_none(),
            Some(w) => r == Some(w as usize),
        },
{
    match id {
        0x00 | 0x01 | 0x09 | 0x0f | 0x10 | 0x11 => Some(1),
        0x02 | 0x03 | 0x06 | 0x07 | 0x08 | 0x0c | 0x0d | 0x0e | 0x12 | 0x13 | 0x14 => Some(2),
        0x04 | 0x05 | 0x0a | 0x0b => Some(3),
        _ => None,
    }
}

fn read_u16(lo: u8, hi: u8) -> (r: u16)
    ensures
        r == le_u16(lo, hi),
{
    lo as u16 + (hi as u16) * 256
}

fn read_i16(lo: u8, hi: u8) -> (r: i16)
    ensures
        r == le_i16(lo, hi),
{
    let u = read_u16(lo, hi);
    if u < 32768 {
        u as i16
    } else {
        (u as i32 - 65536) as i16
    }
}

/// Decodes a service-data payload into its readings, in encounter order.
/// An unsupported device-information byte gives no readings; a record cut
/// short, or an id missing from the width table, ends the decoding and keeps
/// what came before.
pub fn decode(data: &[u8]) -> (r: Vec<Object>)
    ensures
        r@ == decode_payload(data@),
{
    let mut out: Vec<Object> = Vec::new();
    if data.len() == 0 {
        return out;
    }
    let info = data[0];
    if !(info % 2 == 0 && info / 32 == 2) {
        return out;
    }
    let ghost body = data@.subrange(1, data@.len() as int);
    assert(decode_payload(data@) == decode_records(body));
    let mut i: usize = 1;
    while i < data.len()
        invariant
            1 <= i <= data@.len(),
            body == data@.subrange(1, data@.len() as int),
            decode_payload(data@) == decode_records(body),
            out@ + decode_records(data@.subrange(i as int, data@.len() as int))
                == decode_records(body),
        decreases data@.len() - i,
    {
        let ghost s = data@.subrange(i as int, data@.len() as int);
        let id = data[i];
        assert(s.len() > 0 && s[0] == id);
        let w = match width_of(id) {
            None => {
                assert(decode_records(s) == Seq::<Object>::empty());
                assert(out@ + Seq::<Object>::empty() =~= out@);
                return out;
            },
            Some(w) => w,
        };
        if data.len() - i - 1 < w {
            assert(decode_records(s) == Seq::<Object>::empty());
            assert(out@ + Seq::<Object>::empty() =~= out@);
            return out;
        }
        let ghost v = s.subrange(1, 1 + w as int);
        assert(s.subrange(1 + w as int, s.len() as int) =~= data@.subrange(
            i + 1 + w as int,
            data@.len() as int,
        ));
        let ghost before = out@;
        if id == 0x01 {
            out.push(Object::Battery(data[i + 1]));
        } else if id == 0x02 {
            out.push(Object::Temperature(read_i16(data[i + 1], data[i + 2])));
        } else if id == 0x03 {
            out.push(Object::Humidity(read_u16(data[i + 1], data[i + 2])));
        } else if id == 0x0c {
            out.push(Object::Voltage(read_u16(data[i + 1], data[i + 2])));
        } else if id == 0x10 {
            out.push(Object::Power(data[i + 1] != 0));
        }
        assert(v[0] == data@[i + 1]);
        assert(w >= 2 ==> v[1] == data@[i + 2]);
        let ghost rest = decode_records(data@.subrange(i + 1 + w as int, data@.len() as int));
        proof {
            match object_of(id, v) {
                Some(o) => {
                    assert(out@ == before.push(o));
                    assert(before + (seq![o] + rest) =~= out@ + rest);
                },
                None => {
                    assert(out@ == before);
                },
            }
        }
        i = i + 1 + w;
    }
    assert(data@.subrange(i as int, data@.len() as int) =~= Seq::<u8>::empty());
    assert(out@ + Seq::<Object>::empty() =~= out@);
    out
}

} // verus!
