//! From one advertisement to the updates it yields.
use vstd::prelude::*;

use crate::decode::{decode, decode_payload};
use crate::object::Object;
use crate::update::Update;

verus! {

/// The updates for device `name`: one per reading decoded from `payload`,
/// in order, then one for the signal strength where it is known.
pub open spec fn updates_of(name: Seq<char>, payload: Seq<u8>, rssi: Option<i16>) -> Seq<
    (Seq<char>, Object),
> {
    decode_payload(payload).map_values(|o: Object| (name, o)) + match rssi {
        Some(v) => seq![(name, Object::Rssi(v))],
        None => Seq::empty(),
    }
}

/// The updates that one advertisement of device `name` yields, given its
/// service-data payload and its signal strength, if known.
pub fn updates_for(name: &String, payload: &[u8], rssi: Option<i16>) -> (r: Vec<Update>)
    ensures
        r@.map_values(|u: Update| u@) == updates_of(name@, payload@, rssi),
{
    let objects = decode(payload);
    let ghost d = decode_payload(payload@);
    let mut out: Vec<Update> = Vec::new();
    let mut i: usize = 0;
    while i < objects.len()
        invariant
            i <= objects@.len(),
            objects@ == d,
            out@.map_values(|u: Update| u@) =~= d.take(i as int).map_values(
                |o: Object| (name@, o),
            ),
        decreases objects@.len() - i,
    {
        let ghost prev = out@;
        let u = Update { name: name.clone(), object: objects[i] };
        assert(u@ == (name@, d[i as int]));
        out.push(u);
        assert(out@.map_values(|u: Update| u@) =~= prev.map_values(|u: Update| u@).push(
            (name@, d[i as int]),
        ));
        assert(d.take(i + 1).map_values(|o: Object| (name@, o)) =~= d.take(i as int).map_values(
            |o: Object| (name@, o),
        ).push((name@, d[i as int])));
        i = i + 1;
    }
    assert(d.take(i as int) =~= d);
    let ghost before = out@;
    match rssi {
        Some(v) => {
            out.push(Update { name: name.clone(), object: Object::Rssi(v) });
            assert(out@.map_values(|u: Update| u@) =~= updates_of(name@, payload@, rssi));
        },
        None => {
            assert(out@.map_values(|u: Update| u@) =~= updates_of(name@, payload@, rssi));
        },
    }
    out
}

} // verus!
