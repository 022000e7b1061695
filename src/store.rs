//! The aggregation store: the latest reading of each kind for each device,
//! with time-based eviction of devices that have gone quiet.
//!
//! Times are whole seconds on a clock that the caller supplies.
use vstd::prelude::*;

use crate::object::{Kind, Object, kind_of};
use crate::render::{device_text, line_text, push_line};
use crate::update::Update;

verus! {

/// Seconds without an update after which a device is dropped.
pub const STALE_AFTER_SECS: u64 = 300;

/// Seconds between two eviction sweeps.
pub const SWEEP_EVERY_SECS: u64 = 60;

/// What the store knows of one device: when it was last seen, and its
/// readings.
pub type DeviceView = (u64, Seq<Object>);

/// The store as a sequence of named device records.
pub type Entries = Seq<(Seq<char>, DeviceView)>;

/// The readings of `s` whose kind is not `k`, in order.
pub open spec fn without_kind(s: Seq<Object>, k: Kind) -> Seq<Object>
    decreases s.len(),
{
    if s.len() == 0 {
        s
    } else {
        let r = without_kind(s.drop_last(), k);
        if kind_of(s.last()) == k {
            r
        } else {
            r.push(s.last())
        }
    }
}

/// The readings of `s` after `o` replaces any reading of its kind.
pub open spec fn replace_kind(s: Seq<Object>, o: Object) -> Seq<Object> {
    without_kind(s, kind_of(o)).push(o)
}

/// No two readings of `s` are of the same kind.
pub open spec fn kinds_distinct(s: Seq<Object>) -> bool {
    forall|i: int, j: int|
        0 <= i < s.len() && 0 <= j < s.len() && i != j ==> kind_of(#[trigger] s[i]) != kind_of(
            #[trigger] s[j],
        )
}

/// No two records of `s` have the same name.
pub open spec fn names_unique(s: Entries) -> bool {
    forall|i: int, j: int|
        0 <= i < s.len() && 0 <= j < s.len() && i != j ==> (#[trigger] s[i]).0 != (#[trigger] s[j]).0
}

/// The position of the record named `k` in `s`, if there is one.
pub open spec fn position(s: Entries, k: Seq<char>) -> Option<int>
    decreases s.len(),
{
    if s.len() == 0 {
        None
    } else if s.last().0 == k {
        Some(s.len() - 1)
    } else {
        position(s.drop_last(), k)
    }
}

/// Whether a device last seen at `last` is still fresh at `now`: the time
/// since then, counted as zero when `last` lies ahead of `now`, is under
/// `window`.
pub open spec fn is_fresh(last: u64, now: u64, window: u64) -> bool {
    if now >= last {
        now - last < window
    } else {
        0 < window
    }
}

/// The records of `s` that are fresh at `now`, in order.
pub open spec fn fresh_entries(s: Entries, now: u64, window: u64) -> Entries
    decreases s.len(),
{
    if s.len() == 0 {
        s
    } else {
        let r = fresh_entries(s.drop_last(), now, window);
        if is_fresh(s.last().1.0, now, window) {
            r.push(s.last())
        } else {
            r
        }
    }
}

/// The records of `s` after a reading `o` for device `k` arrives at `now`.
pub open spec fn ingested(s: Entries, k: Seq<char>, o: Object, now: u64) -> Entries {
    match position(s, k) {
        Some(i) => s.update(i, (k, (now, replace_kind(s[i].1.1, o)))),
        None => s.push((k, (now, seq![o]))),
    }
}

/// The text of the whole store: the lines of each record in turn.
pub open spec fn render_entries(s: Entries) -> Seq<char>
    decreases s.len(),
{
    if s.len() == 0 {
        Seq::empty()
    } else {
        render_entries(s.drop_last()) + device_text(s.last().0, s.last().1.1)
    }
}

/// The `(device name, reading)` pair of each line of the text, in order.
pub open spec fn rendered_pairs(s: Entries) -> Seq<(Seq<char>, Object)>
    decreases s.len(),
{
    if s.len() == 0 {
        Seq::empty()
    } else {
        rendered_pairs(s.drop_last()) + s.last().1.1.map_values(
            |o: Object| (s.last().0, o),
        )
    }
}

/// The lines for a sequence of `(device name, reading)` pairs, in order.
pub open spec fn lines_text(ps: Seq<(Seq<char>, Object)>) -> Seq<char>
    decreases ps.len(),
{
    if ps.len() == 0 {
        Seq::empty()
    } else {
        lines_text(ps.drop_last()) + line_text(ps.last().0, ps.last().1)
    }
}

/// One device's record.
pub struct Device {
    pub last_update: u64,
    pub objects: Vec<Object>,
}

impl View for Device {
    type V = DeviceView;

    open spec fn view(&self) -> DeviceView {
        (self.last_update, self.objects@)
    }
}

proof fn lemma_without_kind(s: Seq<Object>, k: Kind)
    ensures
        forall|i: int|
            0 <= i < without_kind(s, k).len() ==> kind_of(#[trigger] without_kind(s, k)[i]) != k,
        forall|i: int|
            0 <= i < without_kind(s, k).len() ==> exists|j: int|
                0 <= j < s.len() && #[trigger] without_kind(s, k)[i] == s[j],
        kinds_distinct(s) ==> kinds_distinct(without_kind(s, k)),
    decreases s.len(),
{
    if s.len() > 0 {
        let p = s.drop_last();
        lemma_without_kind(p, k);
        let r = without_kind(p, k);
        assert forall|i: int| 0 <= i < r.len() implies exists|j: int|
            0 <= j < s.len() && #[trigger] r[i] == s[j] by {
            let j = choose|j: int| 0 <= j < p.len() && r[i] == p[j];
            assert(s[j] == p[j]);
        }
        if kind_of(s.last()) != k {
            let t = r.push(s.last());
            assert forall|i: int| 0 <= i < t.len() implies exists|j: int|
                0 <= j < s.len() && #[trigger] t[i] == s[j] by {
                if i == r.len() {
                    assert(t[i] == s[s.len() - 1]);
                } else {
                    assert(t[i] == r[i]);
                }
            }
            if kinds_distinct(s) {
                assert(kinds_distinct(p)) by {
                    assert forall|i: int, j: int|
                        0 <= i < p.len() && 0 <= j < p.len() && i != j implies kind_of(
                        #[trigger] p[i],
                    ) != kind_of(#[trigger] p[j]) by {
                        assert(p[i] == s[i] && p[j] == s[j]);
                    }
                }
                assert forall|i: int, j: int|
                    0 <= i < t.len() && 0 <= j < t.len() && i != j implies kind_of(
                    #[trigger] t[i],
                ) != kind_of(#[trigger] t[j]) by {
                    if i < r.len() && j < r.len() {
                        assert(t[i] == r[i] && t[j] == r[j]);
                    } else if i < r.len() {
                        let m = choose|m: int| 0 <= m < p.len() && r[i] == p[m];
                        assert(s[m] == p[m]);
                        assert(t[j] == s[s.len() - 1]);
                    } else {
                        let m = choose|m: int| 0 <= m < p.len() && r[j] == p[m];
                        assert(s[m] == p[m]);
                        assert(t[i] == s[s.len() - 1]);
                    }
                }
            }
        }
    }
}

/// After `o` replaces the readings of its kind, no two readings share a
/// kind if none did before, and `o` is the one reading of its kind.
pub proof fn lemma_replace_kind(s: Seq<Object>, o: Object)
    ensures
        kinds_distinct(s) ==> kinds_distinct(replace_kind(s, o)),
        replace_kind(s, o).last() == o,
        forall|i: int|
            0 <= i < replace_kind(s, o).len() - 1 ==> kind_of(#[trigger] replace_kind(s, o)[i])
                != kind_of(o),
{
    lemma_without_kind(s, kind_of(o));
    let r = without_kind(s, kind_of(o));
    let t = r.push(o);
    assert forall|i: int| 0 <= i < t.len() - 1 implies kind_of(#[trigger] t[i]) != kind_of(o) by {
        assert(t[i] == r[i]);
    }
    if kinds_distinct(s) {
        assert forall|i: int, j: int|
            0 <= i < t.len() && 0 <= j < t.len() && i != j implies kind_of(#[trigger] t[i])
            != kind_of(#[trigger] t[j]) by {
            if i < r.len() && j < r.len() {
                assert(t[i] == r[i] && t[j] == r[j]);
            } else if i < r.len() {
                assert(t[i] == r[i]);
            } else {
                assert(t[j] == r[j]);
            }
        }
    }
}

impl Device {
    /// Stores `object`, replacing any reading of the same kind: at most one
    /// reading per kind, the newest one.
    pub fn put(&mut self, object: Object)
        ensures
            final(self).objects@ == replace_kind(old(self).objects@, object),
            final(self).last_update == old(self).last_update,
    {
        let ghost k = kind_of(object);
        let mut kept: Vec<Object> = Vec::new();
        let mut i: usize = 0;
        while i < self.objects.len()
            invariant
                i <= self.objects@.len(),
                kept@ == without_kind(self.objects@.take(i as int), k),
                k == kind_of(object),
            decreases self.objects@.len() - i,
        {
            let o = self.objects[i];
            assert(self.objects@.take(i + 1).drop_last() =~= self.objects@.take(i as int));
            if !o.same_kind(&object) {
                kept.push(o);
            }
            i = i + 1;
        }
        assert(self.objects@.take(i as int) =~= self.objects@);
        kept.push(object);
        self.objects = kept;
    }
}

struct Entry {
    name: String,
    device: Device,
}

/// The store: one record per device name.
pub struct Metrics {
    devices: Vec<Entry>,
}

proof fn lemma_position(s: Entries, k: Seq<char>)
    ensures
        match position(s, k) {
            Some(i) => 0 <= i < s.len() && s[i].0 == k,
            None => forall|j: int| 0 <= j < s.len() ==> (#[trigger] s[j]).0 != k,
        },
    decreases s.len(),
{
    if s.len() > 0 && s.last().0 != k {
        let p = s.drop_last();
        lemma_position(p, k);
        match position(p, k) {
            Some(i) => {
                assert(p[i] == s[i]);
            },
            None => {
                assert forall|j: int| 0 <= j < s.len() implies (#[trigger] s[j]).0 != k by {
                    if j < s.len() - 1 {
                        assert(p[j] == s[j]);
                    }
                }
            },
        }
    }
}

proof fn lemma_position_unique(s: Entries, i: int)
    requires
        names_unique(s),
        0 <= i < s.len(),
    ensures
        position(s, s[i].0) == Some(i),
{
    lemma_position(s, s[i].0);
}

proof fn lemma_fresh_entries(s: Entries, now: u64, window: u64)
    ensures
        forall|i: int|
            0 <= i < fresh_entries(s, now, window).len() ==> is_fresh(
                (#[trigger] fresh_entries(s, now, window)[i]).1.0,
                now,
                window,
            ),
        forall|i: int|
            0 <= i < fresh_entries(s, now, window).len() ==> exists|j: int|
                0 <= j < s.len() && #[trigger] fresh_entries(s, now, window)[i] == s[j],
        forall|j: int|
            0 <= j < s.len() && is_fresh((#[trigger] s[j]).1.0, now, window) ==> exists|i: int|
                0 <= i < fresh_entries(s, now, window).len() && fresh_entries(s, now, window)[i]
                    == s[j],
        names_unique(s) ==> names_unique(fresh_entries(s, now, window)),
    decreases s.len(),
{
    if s.len() > 0 {
        let p = s.drop_last();
        lemma_fresh_entries(p, now, window);
        let r = fresh_entries(p, now, window);
        let t = fresh_entries(s, now, window);
        let last = s.last();
        assert forall|i: int| 0 <= i < r.len() implies exists|j: int|
            0 <= j < s.len() && #[trigger] r[i] == s[j] by {
            let j = choose|j: int| 0 <= j < p.len() && r[i] == p[j];
            assert(s[j] == p[j]);
        }
        assert forall|j: int| 0 <= j < s.len() && is_fresh((#[trigger] s[j]).1.0, now, window)
            implies exists|i: int| 0 <= i < t.len() && t[i] == s[j] by {
            if j < s.len() - 1 {
                assert(p[j] == s[j]);
                let i = choose|i: int| 0 <= i < r.len() && r[i] == p[j];
                assert(t[i] == r[i]);
            } else {
                assert(t[t.len() - 1] == s[j]);
            }
        }
        if names_unique(s) {
            assert(names_unique(p)) by {
                assert forall|a: int, b: int|
                    0 <= a < p.len() && 0 <= b < p.len() && a != b implies (#[trigger] p[a]).0
                    != (#[trigger] p[b]).0 by {
                    assert(p[a] == s[a] && p[b] == s[b]);
                }
            }
            if is_fresh(last.1.0, now, window) {
                assert forall|a: int, b: int|
                    0 <= a < t.len() && 0 <= b < t.len() && a != b implies (#[trigger] t[a]).0
                    != (#[trigger] t[b]).0 by {
                    if a < r.len() && b < r.len() {
                        assert(t[a] == r[a] && t[b] == r[b]);
                    } else if a < r.len() {
                        let m = choose|m: int| 0 <= m < p.len() && r[a] == p[m];
                        assert(s[m] == p[m]);
                        assert(t[b] == s[s.len() - 1]);
                    } else {
                        let m = choose|m: int| 0 <= m < p.len() && r[b] == p[m];
                        assert(s[m] == p[m]);
                        assert(t[a] == s[s.len() - 1]);
                    }
                }
            }
        }
    }
}

fn fresh_at(last: u64, now: u64, window: u64) -> (r: bool)
    ensures
        r == is_fresh(last, now, window),
{
    if now >= last {
        now - last < window
    } else {
        0 < window
    }
}

impl Metrics {
    /// The records, in the order in which they are stored and rendered.
    pub closed spec fn entries(&self) -> Entries {
        self.devices@.map_values(|e: Entry| (e.name@, e.device@))
    }

    /// Names are unique, and no device holds two readings of one kind.
    pub open spec fn wf(&self) -> bool {
        &&& names_unique(self.entries())
        &&& forall|i: int|
            0 <= i < self.entries().len() ==> kinds_distinct(#[trigger] self.entries()[i].1.1)
    }

    /// An empty store.
    pub fn new() -> (m: Metrics)
        ensures
            m.wf(),
            m.entries() == Seq::<(Seq<char>, DeviceView)>::empty(),
    {
        let m = Metrics { devices: Vec::new() };
        assert(m.entries() =~= Seq::<(Seq<char>, DeviceView)>::empty());
        m
    }

    /// The number of devices held.
    pub fn len(&self) -> (n: usize)
        ensures
            n == self.entries().len(),
    {
        self.devices.len()
    }

    fn find(&self, name: &String) -> (r: Option<usize>)
        ensures
            match r {
                Some(i) => i < self.devices@.len() && position(self.entries(), name@) == Some(
                    i as int,
                ),
                None => position(self.entries(), name@) is None,
            },
    {
        let ghost e = self.entries();
        let mut i: usize = self.devices.len();
        assert(e.take(i as int) =~= e);
        while i > 0
            invariant
                i <= self.devices@.len(),
                e == self.entries(),
                e.len() == self.devices@.len(),
                position(e, name@) == position(e.take(i as int), name@),
            decreases i,
        {
            let ghost t = e.take(i as int);
            assert(t.last() == e[i - 1]);
            assert(t.drop_last() =~= e.take(i - 1));
            if self.devices[i - 1].name == *name {
                return Some(i - 1);
            }
            i = i - 1;
        }
        None
    }

    /// The record for `name`, created empty where there is none, stamped as
    /// seen at `now`.
    pub fn get(&mut self, name: String, now: u64) -> (r: &mut Device)
        ensures
            match position(old(self).entries(), name@) {
                Some(i) => {
                    &&& r@ == (now, old(self).entries()[i].1.1)
                    &&& final(self).entries() =~= old(self).entries().update(
                        i,
                        (name@, final(r)@),
                    )
                },
                None => {
                    &&& r@ == (now, Seq::<Object>::empty())
                    &&& final(self).entries() =~= old(self).entries().push((name@, final(r)@))
                },
            },
    {
        proof {
            lemma_position(self.entries(), name@);
        }
        match self.find(&name) {
            Some(i) => {
                self.devices[i].device.last_update = now;
                &mut self.devices[i].device
            },
            None => {
                self.devices.push(Entry { name, device: Device { last_update: now, objects: Vec::new() } });
                let n = self.devices.len() - 1;
                &mut self.devices[n].device
            },
        }
    }
}

impl Metrics {
    /// Records an update seen at `now`: the device's record is created if
    /// need be and stamped with `now`, and the reading replaces any reading
    /// of the same kind that the device holds.
    pub fn ingest(&mut self, update: Update, now: u64)
        requires
            old(self).wf(),
        ensures
            final(self).wf(),
            final(self).entries() == ingested(old(self).entries(), update.name@, update.object, now),
    {
        let ghost e = self.entries();
        let Update { name, object } = update;
        proof {
            lemma_position(e, name@);
            lemma_replace_kind(Seq::<Object>::empty(), object);
            assert(without_kind(Seq::<Object>::empty(), kind_of(object)) =~= Seq::<Object>::empty());
            assert(replace_kind(Seq::<Object>::empty(), object) =~= seq![object]);
            match position(e, name@) {
                Some(i) => lemma_replace_kind(e[i].1.1, object),
                None => {},
            }
        }
        let d = self.get(name, now);
        d.put(object);
        proof {
            let f = self.entries();
            assert(f =~= ingested(e, name@, object, now));
            assert forall|a: int, b: int|
                0 <= a < f.len() && 0 <= b < f.len() && a != b implies (#[trigger] f[a]).0
                != (#[trigger] f[b]).0 by {
                if a < e.len() {
                    assert(f[a].0 == e[a].0);
                }
                if b < e.len() {
                    assert(f[b].0 == e[b].0);
                }
            }
            assert forall|a: int| 0 <= a < f.len() implies kinds_distinct(#[trigger] f[a].1.1) by {
                if a < e.len() {
                    assert(kinds_distinct(e[a].1.1));
                }
            }
        }
    }

    /// Removes every device that is not fresh at `now`: those whose time
    /// since they were last seen is `window` or more.
    pub fn evict(&mut self, now: u64, window: u64)
        requires
            old(self).wf(),
        ensures
            final(self).wf(),
            final(self).entries() == fresh_entries(old(self).entries(), now, window),
    {
        let ghost e = self.entries();
        let ghost mut j: int = 0;
        let mut i: usize = 0;
        assert(e.take(0) =~= Seq::<(Seq<char>, DeviceView)>::empty());
        assert(e.skip(0) =~= e);
        while i < self.devices.len()
            invariant
                0 <= j <= e.len(),
                i <= self.devices@.len(),
                self.entries() =~= fresh_entries(e.take(j), now, window) + e.skip(j),
                i == fresh_entries(e.take(j), now, window).len(),
            decreases self.devices@.len() - i,
        {
            let ghost before = self.entries();
            let ghost kept = fresh_entries(e.take(j), now, window);
            assert(before[i as int] == e[j]);
            assert(e.take(j + 1).drop_last() =~= e.take(j));
            assert(e.take(j + 1).last() == e[j]);
            if fresh_at(self.devices[i].device.last_update, now, window) {
                assert(kept.push(e[j]) + e.skip(j + 1) =~= before);
                i = i + 1;
            } else {
                let ghost dv = self.devices@;
                self.devices.remove(i);
                let ghost target = kept + e.skip(j + 1);
                assert(before.len() == dv.len());
                assert(before.len() == kept.len() + e.len() - j);
                assert(self.devices@.len() == dv.len() - 1);
                assert(self.entries().len() == target.len());
                assert forall|a: int| 0 <= a < target.len() implies #[trigger] self.entries()[a]
                    == target[a] by {
                    if a < i {
                        assert(self.devices@[a] == dv[a]);
                        assert(before[a] == target[a]);
                    } else {
                        assert(self.devices@[a] == dv[a + 1]);
                        assert(before[a + 1] == e[j + 1 + a - i]);
                    }
                }
                assert(self.entries() =~= target);
            }
            proof {
                j = j + 1;
            }
        }
        proof {
            assert(e.take(j) =~= e);
            let f = self.entries();
            lemma_fresh_entries(e, now, window);
            assert forall|a: int| 0 <= a < f.len() implies kinds_distinct(#[trigger] f[a].1.1) by {
                let m = choose|m: int| 0 <= m < e.len() && f[a] == e[m];
                assert(kinds_distinct(e[m].1.1));
            }
        }
    }

    /// The text form of the store: one line per reading of each device, in
    /// the order in which the records and their readings are held.
    pub fn render(&self) -> (r: String)
        ensures
            r@ == render_entries(self.entries()),
    {
        let ghost e = self.entries();
        let mut out = String::new();
        let mut i: usize = 0;
        assert(e.take(0) =~= Seq::<(Seq<char>, DeviceView)>::empty());
        while i < self.devices.len()
            invariant
                i <= self.devices@.len(),
                e == self.entries(),
                out@ == render_entries(e.take(i as int)),
            decreases self.devices@.len() - i,
        {
            let entry = &self.devices[i];
            let ghost objs = entry.device.objects@;
            let ghost base = out@;
            let mut j: usize = 0;
            assert(objs.take(0) =~= Seq::<Object>::empty());
            assert(base + Seq::<char>::empty() =~= base);
            while j < entry.device.objects.len()
                invariant
                    j <= objs.len(),
                    objs == entry.device.objects@,
                    out@ == base + device_text(entry.name@, objs.take(j as int)),
                decreases objs.len() - j,
            {
                push_line(&mut out, &entry.name, &entry.device.objects[j]);
                assert(objs.take(j + 1).drop_last() =~= objs.take(j as int));
                assert(out@ =~= base + device_text(entry.name@, objs.take(j + 1)));
                j = j + 1;
            }
            assert(objs.take(j as int) =~= objs);
            assert(e.take(i + 1).drop_last() =~= e.take(i as int));
            assert(e[i as int] == (entry.name@, entry.device@));
            i = i + 1;
        }
        assert(e.take(i as int) =~= e);
        out
    }

    /// A copy of every record: name, time last seen, and readings, in the
    /// order in which they are held.
    pub fn snapshot(&self) -> (r: Vec<(String, u64, Vec<Object>)>)
        ensures
            r@.len() == self.entries().len(),
            forall|i: int|
                0 <= i < r@.len() ==> (#[trigger] r@[i]).0@ == self.entries()[i].0 && r@[i].1
                    == self.entries()[i].1.0 && r@[i].2@ == self.entries()[i].1.1,
    {
        let ghost e = self.entries();
        let mut out: Vec<(String, u64, Vec<Object>)> = Vec::new();
        let mut i: usize = 0;
        while i < self.devices.len()
            invariant
                i <= self.devices@.len(),
                e == self.entries(),
                out@.len() == i,
                forall|k: int|
                    0 <= k < i ==> (#[trigger] out@[k]).0@ == e[k].0 && out@[k].1 == e[k].1.0
                        && out@[k].2@ == e[k].1.1,
            decreases self.devices@.len() - i,
        {
            let entry = &self.devices[i];
            let mut objs: Vec<Object> = Vec::new();
            let mut j: usize = 0;
            while j < entry.device.objects.len()
                invariant
                    j <= entry.device.objects@.len(),
                    objs@ == entry.device.objects@.take(j as int),
                decreases entry.device.objects@.len() - j,
            {
                objs.push(entry.device.objects[j]);
                assert(entry.device.objects@.take(j + 1) =~= entry.device.objects@.take(
                    j as int,
                ).push(entry.device.objects@[j as int]));
                j = j + 1;
            }
            assert(entry.device.objects@.take(j as int) =~= entry.device.objects@);
            out.push((entry.name.clone(), entry.device.last_update, objs));
            i = i + 1;
        }
        out
    }

    /// The record of the device named `name`, if the store holds one.
    pub fn lookup(&self, name: &String) -> (r: Option<&Device>)
        ensures
            match position(self.entries(), name@) {
                Some(i) => r is Some && r.unwrap()@ == self.entries()[i].1,
                None => r is None,
            },
    {
        match self.find(name) {
            Some(i) => Some(&self.devices[i].device),
            None => None,
        }
    }
}

/// After a reading arrives for a device, the device is present, stamped
/// with the time of arrival, and holds exactly one reading of that kind:
/// the one that arrived.
pub proof fn lemma_ingest_replaces(s: Entries, k: Seq<char>, o: Object, now: u64)
    requires
        names_unique(s),
    ensures
        ({
            let t = ingested(s, k, o, now);
            let i = position(t, k);
            &&& i is Some
            &&& t[i.unwrap()].1.0 == now
            &&& t[i.unwrap()].1.1.last() == o
            &&& forall|m: int|
                0 <= m < t[i.unwrap()].1.1.len() - 1 ==> kind_of(#[trigger] t[i.unwrap()].1.1[m])
                    != kind_of(o)
        }),
{
    let t = ingested(s, k, o, now);
    lemma_position(s, k);
    match position(s, k) {
        Some(i) => {
            lemma_replace_kind(s[i].1.1, o);
            assert(names_unique(t)) by {
                assert forall|a: int, b: int|
                    0 <= a < t.len() && 0 <= b < t.len() && a != b implies (#[trigger] t[a]).0
                    != (#[trigger] t[b]).0 by {
                    assert(t[a].0 == s[a].0 && t[b].0 == s[b].0);
                }
            }
            lemma_position_unique(t, i);
        },
        None => {
            assert(names_unique(t)) by {
                assert forall|a: int, b: int|
                    0 <= a < t.len() && 0 <= b < t.len() && a != b implies (#[trigger] t[a]).0
                    != (#[trigger] t[b]).0 by {
                    if a < s.len() {
                        assert(t[a] == s[a]);
                    }
                    if b < s.len() {
                        assert(t[b] == s[b]);
                    }
                }
            }
            lemma_position_unique(t, s.len() as int);
        },
    }
}

/// A sweep at `now` keeps a device exactly when the store held it and it
/// was last seen within the window; what it keeps is unchanged.
pub proof fn lemma_eviction(s: Entries, now: u64, window: u64, k: Seq<char>)
    requires
        names_unique(s),
    ensures
        ({
            let t = fresh_entries(s, now, window);
            &&& (position(t, k) is Some) == (position(s, k) is Some && is_fresh(
                s[position(s, k).unwrap()].1.0,
                now,
                window,
            ))
            &&& position(t, k) is Some ==> t[position(t, k).unwrap()] == s[position(s, k).unwrap()]
        }),
{
    let t = fresh_entries(s, now, window);
    lemma_fresh_entries(s, now, window);
    lemma_position(s, k);
    lemma_position(t, k);
    match position(t, k) {
        Some(i) => {
            let j = choose|j: int| 0 <= j < s.len() && t[i] == s[j];
            lemma_position_unique(s, j);
        },
        None => {
            match position(s, k) {
                Some(j) => {
                    if is_fresh(s[j].1.0, now, window) {
                        let i = choose|i: int| 0 <= i < t.len() && t[i] == s[j];
                        assert(t[i].0 == k);
                    }
                },
                None => {},
            }
        },
    }
}

/// A device updated at `t` survives any later sweep at `now` that lies
/// within the window of `t`, and an update that comes after a sweep puts its
/// device back whatever the sweep removed.
pub proof fn lemma_update_survives_sweep(
    s: Entries,
    k: Seq<char>,
    o: Object,
    t: u64,
    now: u64,
    window: u64,
)
    requires
        names_unique(s),
    ensures
        is_fresh(t, now, window) ==> position(
            fresh_entries(ingested(s, k, o, t), now, window),
            k,
        ) is Some,
        names_unique(fresh_entries(s, now, window)) && position(
            ingested(fresh_entries(s, now, window), k, o, t),
            k,
        ) is Some,
{
    lemma_ingest_replaces(s, k, o, t);
    let u = ingested(s, k, o, t);
    lemma_position(u, k);
    assert(names_unique(u)) by {
        lemma_position(s, k);
        assert forall|a: int, b: int|
            0 <= a < u.len() && 0 <= b < u.len() && a != b implies (#[trigger] u[a]).0
            != (#[trigger] u[b]).0 by {
            if a < s.len() {
                assert(u[a].0 == s[a].0);
            }
            if b < s.len() {
                assert(u[b].0 == s[b].0);
            }
        }
    }
    lemma_eviction(u, now, window, k);
    lemma_fresh_entries(s, now, window);
    lemma_ingest_replaces(fresh_entries(s, now, window), k, o, t);
}

proof fn lemma_lines_text_add(a: Seq<(Seq<char>, Object)>, b: Seq<(Seq<char>, Object)>)
    ensures
        lines_text(a + b) == lines_text(a) + lines_text(b),
    decreases b.len(),
{
    if b.len() == 0 {
        assert(a + b =~= a);
        assert(lines_text(a) + Seq::<char>::empty() =~= lines_text(a));
    } else {
        lemma_lines_text_add(a, b.drop_last());
        assert((a + b).drop_last() =~= a + b.drop_last());
        assert((a + b).last() == b.last());
        assert(lines_text(a) + lines_text(b.drop_last()) + line_text(b.last().0, b.last().1)
            =~= lines_text(a) + (lines_text(b.drop_last()) + line_text(b.last().0, b.last().1)));
    }
}

proof fn lemma_device_text(n: Seq<char>, objs: Seq<Object>)
    ensures
        device_text(n, objs) == lines_text(objs.map_values(|o: Object| (n, o))),
    decreases objs.len(),
{
    if objs.len() > 0 {
        lemma_device_text(n, objs.drop_last());
        assert(objs.map_values(|o: Object| (n, o)).drop_last() =~= objs.drop_last().map_values(
            |o: Object| (n, o),
        ));
    } else {
        assert(objs.map_values(|o: Object| (n, o)) =~= Seq::<(Seq<char>, Object)>::empty());
    }
}

proof fn lemma_rendered_pairs(s: Entries)
    ensures
        render_entries(s) == lines_text(rendered_pairs(s)),
        forall|m: int|
            0 <= m < rendered_pairs(s).len() ==> exists|j: int|
                0 <= j < s.len() && s[j].0 == (#[trigger] rendered_pairs(s)[m]).0,
    decreases s.len(),
{
    if s.len() > 0 {
        let p = s.drop_last();
        lemma_rendered_pairs(p);
        let a = rendered_pairs(p);
        let b = s.last().1.1.map_values(|o: Object| (s.last().0, o));
        lemma_lines_text_add(a, b);
        lemma_device_text(s.last().0, s.last().1.1);
        let r = rendered_pairs(s);
        assert forall|m: int| 0 <= m < r.len() implies exists|j: int|
            0 <= j < s.len() && s[j].0 == (#[trigger] r[m]).0 by {
            if m < a.len() {
                assert(r[m] == a[m]);
                let j = choose|j: int| 0 <= j < p.len() && p[j].0 == a[m].0;
                assert(s[j] == p[j]);
            } else {
                assert(r[m] == b[m - a.len()]);
                assert(s[s.len() - 1].0 == r[m].0);
            }
        }
    }
}

/// After a sweep at `now` that finds the device named `k` stale, the text
/// of the store is made of one line per remaining `(device, reading)` pair,
/// and none of those lines is for `k`.
pub proof fn lemma_evicted_has_no_lines(s: Entries, now: u64, window: u64, k: Seq<char>)
    requires
        names_unique(s),
        position(s, k) is Some,
        !is_fresh(s[position(s, k).unwrap()].1.0, now, window),
    ensures
        ({
            let t = fresh_entries(s, now, window);
            &&& render_entries(t) == lines_text(rendered_pairs(t))
            &&& forall|m: int|
                0 <= m < rendered_pairs(t).len() ==> (#[trigger] rendered_pairs(t)[m]).0 != k
        }),
{
    let t = fresh_entries(s, now, window);
    lemma_eviction(s, now, window, k);
    lemma_position(t, k);
    lemma_rendered_pairs(t);
}

} // verus!
