//! The event/rollup store.
//!
//! The store owns three relations: the sensor registry, the detail
//! event log (one row per sensor per second, replace-on-conflict), and
//! the daily rollups (one row per sensor per day). All access funnels
//! through one owner of the `Store` value, so serialization of writers
//! holds by construction; callers outside the library keep the value
//! behind a single worker or a lock.
//!
//! Event rows are kept sorted by timestamp key and unique per
//! `(sensor, timestamp)`; rollup rows are unique per `(sensor, day)`;
//! every event or rollup row is backed by a registry entry.

use vstd::prelude::*;

use crate::date::{Date, Timestamp};
use crate::proto::Datum;

verus! {

/// One persisted reading at a specific timestamp.
#[derive(Clone, Copy, Debug, PartialEq, Eq)]
pub struct EventRow {
    pub mac: [u8; 6],
    pub ts: Timestamp,
    pub temp: u16,
    pub ppm: u16,
    pub hum: u16,
}

/// One persisted daily aggregate for one sensor.
#[derive(Clone, Copy, Debug, PartialEq, Eq)]
pub struct RollupRow {
    pub mac: [u8; 6],
    pub day: Date,
    pub temp_min: u16,
    pub temp_max: u16,
    pub temp_avg: u16,
    pub ppm_min: u16,
    pub ppm_max: u16,
    pub ppm_avg: u16,
    pub hum_min: u16,
    pub hum_max: u16,
    pub hum_avg: u16,
}

/// `e` is the event row keyed by sensor `mac` and timestamp key `k`.
pub open spec fn ev_key_is(e: EventRow, mac: Seq<u8>, k: int) -> bool {
    e.mac@ == mac && e.ts.key() == k
}

/// `r` is the rollup row keyed by sensor `mac` and day key `dk`.
pub open spec fn rl_key_is(r: RollupRow, mac: Seq<u8>, dk: int) -> bool {
    r.mac@ == mac && r.day.key() == dk
}

pub open spec fn seq_has_event(s: Seq<EventRow>, mac: Seq<u8>, k: int) -> bool {
    exists|i: int| 0 <= i < s.len() && #[trigger] ev_key_is(s[i], mac, k)
}

pub open spec fn seq_event_at(s: Seq<EventRow>, mac: Seq<u8>, k: int) -> EventRow {
    s[choose|i: int| 0 <= i < s.len() && #[trigger] ev_key_is(s[i], mac, k)]
}

pub open spec fn seq_has_rollup(s: Seq<RollupRow>, mac: Seq<u8>, dk: int) -> bool {
    exists|i: int| 0 <= i < s.len() && #[trigger] rl_key_is(s[i], mac, dk)
}

pub open spec fn seq_rollup_at(s: Seq<RollupRow>, mac: Seq<u8>, dk: int) -> RollupRow {
    s[choose|i: int| 0 <= i < s.len() && #[trigger] rl_key_is(s[i], mac, dk)]
}

pub open spec fn seq_has_mac(s: Seq<[u8; 6]>, mac: Seq<u8>) -> bool {
    exists|i: int| 0 <= i < s.len() && (#[trigger] s[i])@ == mac
}

/// No two event rows share a `(sensor, timestamp)` key.
pub open spec fn events_unique(s: Seq<EventRow>) -> bool {
    forall|i: int, j: int|
        0 <= i < j < s.len() ==> !((#[trigger] s[i]).mac@ == (#[trigger] s[j]).mac@
            && s[i].ts.key() == s[j].ts.key())
}

/// Event rows are kept in ascending timestamp order.
pub open spec fn events_sorted(s: Seq<EventRow>) -> bool {
    forall|i: int, j: int|
        0 <= i <= j < s.len() ==> (#[trigger] s[i]).ts.key() <= (#[trigger] s[j]).ts.key()
}

/// Every event row carries a valid timestamp, with headroom for day
/// arithmetic below the last representable year.
pub open spec fn events_valid(s: Seq<EventRow>) -> bool {
    forall|i: int|
        0 <= i < s.len() ==> (#[trigger] s[i]).ts.valid() && s[i].ts.date.year < 9999
}

/// No two rollup rows share a `(sensor, day)` key.
pub open spec fn rollups_unique(s: Seq<RollupRow>) -> bool {
    forall|i: int, j: int|
        0 <= i < j < s.len() ==> !((#[trigger] s[i]).mac@ == (#[trigger] s[j]).mac@
            && s[i].day.key() == s[j].day.key())
}

/// Every rollup row carries a valid day, with the same headroom.
pub open spec fn rollups_valid(s: Seq<RollupRow>) -> bool {
    forall|i: int|
        0 <= i < s.len() ==> (#[trigger] s[i]).day.valid() && s[i].day.year < 9999
}

/// No sensor appears twice in the registry.
pub open spec fn macs_unique(s: Seq<[u8; 6]>) -> bool {
    forall|i: int, j: int| 0 <= i < j < s.len() ==> (#[trigger] s[i])@ != (#[trigger] s[j])@
}

/// The persistent store: sensor registry, detail events, daily rollups.
pub struct Store {
    pub sensors: Vec<[u8; 6]>,
    pub events: Vec<EventRow>,
    pub rollups: Vec<RollupRow>,
}

impl Store {
    /// The store's invariant, established by `new` and preserved by
    /// every operation.
    pub open spec fn wf(self) -> bool {
        &&& events_unique(self.events@)
        &&& events_sorted(self.events@)
        &&& events_valid(self.events@)
        &&& rollups_unique(self.rollups@)
        &&& rollups_valid(self.rollups@)
        &&& macs_unique(self.sensors@)
        &&& forall|i: int|
            0 <= i < self.events@.len() ==> seq_has_mac(
                self.sensors@,
                (#[trigger] self.events@[i]).mac@,
            )
        &&& forall|i: int|
            0 <= i < self.rollups@.len() ==> seq_has_mac(
                self.sensors@,
                (#[trigger] self.rollups@[i]).mac@,
            )
    }

    pub open spec fn has_sensor(self, mac: Seq<u8>) -> bool {
        seq_has_mac(self.sensors@, mac)
    }

    pub open spec fn has_event(self, mac: Seq<u8>, k: int) -> bool {
        seq_has_event(self.events@, mac, k)
    }

    pub open spec fn event_at(self, mac: Seq<u8>, k: int) -> EventRow {
        seq_event_at(self.events@, mac, k)
    }

    pub open spec fn has_rollup(self, mac: Seq<u8>, dk: int) -> bool {
        seq_has_rollup(self.rollups@, mac, dk)
    }

    pub open spec fn rollup_at(self, mac: Seq<u8>, dk: int) -> RollupRow {
        seq_rollup_at(self.rollups@, mac, dk)
    }

    /// A fresh store: the three relations exist and are empty.
    pub fn new() -> (r: Store)
        ensures
            r.wf(),
            r.sensors@.len() == 0,
            r.events@.len() == 0,
            r.rollups@.len() == 0,
    {
        Store { sensors: Vec::new(), events: Vec::new(), rollups: Vec::new() }
    }

    /// Idempotent upsert of a registry entry; called by every write
    /// path before it adds rows for a sensor.
    #[verifier::loop_isolation(false)]
    pub fn ensure_sensor(&mut self, mac: &[u8; 6])
        requires
            old(self).wf(),
        ensures
            final(self).wf(),
            final(self).events@ == old(self).events@,
            final(self).rollups@ == old(self).rollups@,
            final(self).has_sensor(mac@),
            forall|m: Seq<u8>|
                final(self).has_sensor(m) <==> old(self).has_sensor(m) || m == mac@,
            old(self).has_sensor(mac@) ==> final(self).sensors@ == old(self).sensors@,
    {
        let n = self.sensors.len();
        let mut i: usize = 0;
        while i < n
            invariant
                *self == *old(self),
                n == self.sensors@.len(),
                i <= n,
                forall|j: int| 0 <= j < i ==> (#[trigger] self.sensors@[j])@ != mac@,
            decreases n - i,
        {
            if mac_eq(&self.sensors[i], mac) {
                proof {
                    assert(self.has_sensor(mac@));
                }
                return ;
            }
            i = i + 1;
        }
        proof {
            assert(!old(self).has_sensor(mac@));
        }
        let ghost pre = *self;
        self.sensors.push(*mac);
        proof {
            assert((self.sensors@[self.sensors@.len() - 1])@ == mac@);
            assert(self.has_sensor(mac@));
            assert forall|m: Seq<u8>|
                self.has_sensor(m) <==> pre.has_sensor(m) || m == mac@ by {
                if self.has_sensor(m) {
                    let j = choose|j: int|
                        0 <= j < self.sensors@.len() && (#[trigger] self.sensors@[j])@ == m;
                    if j < pre.sensors@.len() {
                        assert(pre.sensors@[j]@ == m);
                    }
                }
                if pre.has_sensor(m) {
                    let j = choose|j: int|
                        0 <= j < pre.sensors@.len() && (#[trigger] pre.sensors@[j])@ == m;
                    assert(self.sensors@[j]@ == m);
                }
            }
            assert forall|i2: int|
                0 <= i2 < self.events@.len() implies seq_has_mac(
                self.sensors@,
                (#[trigger] self.events@[i2]).mac@,
            ) by {
                let m = self.events@[i2].mac@;
                assert(seq_has_mac(pre.sensors@, m));
                let j = choose|j: int|
                    0 <= j < pre.sensors@.len() && (#[trigger] pre.sensors@[j])@ == m;
                assert(self.sensors@[j]@ == m);
            }
            assert forall|i2: int|
                0 <= i2 < self.rollups@.len() implies seq_has_mac(
                self.sensors@,
                (#[trigger] self.rollups@[i2]).mac@,
            ) by {
                let m = self.rollups@[i2].mac@;
                assert(seq_has_mac(pre.sensors@, m));
                let j = choose|j: int|
                    0 <= j < pre.sensors@.len() && (#[trigger] pre.sensors@[j])@ == m;
                assert(self.sensors@[j]@ == m);
            }
        }
    }

    /// All known sensor identities, in registry order (stable across
    /// calls; no order is promised beyond determinism).
    #[verifier::loop_isolation(false)]
    pub fn list_sensors(&self) -> (r: Vec<[u8; 6]>)
        ensures
            r@ == self.sensors@,
    {
        let mut r: Vec<[u8; 6]> = Vec::new();
        let mut i: usize = 0;
        while i < self.sensors.len()
            invariant
                i <= self.sensors@.len(),
                r@ == self.sensors@.take(i as int),
            decreases self.sensors@.len() - i,
        {
            r.push(self.sensors[i]);
            proof {
                assert(r@ =~= self.sensors@.take(i + 1));
            }
            i = i + 1;
        }
        proof {
            assert(r@ =~= self.sensors@);
        }
        r
    }
}

/// Byte-wise equality of two sensor identities: two identities are
/// equal exactly when their byte sequences are equal.
pub fn mac_eq(a: &[u8; 6], b: &[u8; 6]) -> (r: bool)
    ensures
        r <==> a@ == b@,
{
    if a[0] != b[0] {
        return false;
    }
    if a[1] != b[1] {
        return false;
    }
    if a[2] != b[2] {
        return false;
    }
    if a[3] != b[3] {
        return false;
    }
    if a[4] != b[4] {
        return false;
    }
    if a[5] != b[5] {
        return false;
    }
    proof {
        assert(a@ =~= b@);
    }
    true
}

/// The observable effect of `insert_event`: the store after (`post`)
/// relates to the store before (`pre`) as an insert-or-replace of the
/// event row keyed by `(mac, ts)`.
pub open spec fn insert_event_post(
    pre: Store,
    post: Store,
    mac: Seq<u8>,
    ts: Timestamp,
    temp: u16,
    ppm: u16,
    hum: u16,
) -> bool {
    &&& post.wf()
    &&& post.rollups@ == pre.rollups@
    &&& (forall|m: Seq<u8>| post.has_sensor(m) <==> pre.has_sensor(m) || m == mac)
    &&& post.has_event(mac, ts.key())
    &&& post.event_at(mac, ts.key()).mac@ == mac
    &&& post.event_at(mac, ts.key()).ts == ts
    &&& post.event_at(mac, ts.key()).temp == temp
    &&& post.event_at(mac, ts.key()).ppm == ppm
    &&& post.event_at(mac, ts.key()).hum == hum
    &&& (forall|m: Seq<u8>, k: int|
        !(m == mac && k == ts.key()) ==> (post.has_event(m, k) <==> pre.has_event(m, k)))
    &&& (forall|m: Seq<u8>, k: int|
        !(m == mac && k == ts.key()) && pre.has_event(m, k) ==> post.event_at(m, k)
            == pre.event_at(m, k))
    &&& post.events@.len() == pre.events@.len() + (if pre.has_event(mac, ts.key()) {
        0int
    } else {
        1int
    })
    &&& (pre.has_sensor(mac) ==> post.sensors@ == pre.sensors@)
}

impl Store {
    /// Insert-or-replace the event row keyed by `(sensor, timestamp)`.
    /// Registers the sensor if unknown. A second insert for the same
    /// key never fails: the later write replaces the earlier row.
    #[verifier::loop_isolation(false)]
    #[verifier::rlimit(60)]
    pub fn insert_event(&mut self, mac: &[u8; 6], ts: Timestamp, temp: u16, ppm: u16, hum: u16)
        requires
            old(self).wf(),
            ts.valid(),
            ts.date.year < 9999,
        ensures
            insert_event_post(*old(self), *final(self), mac@, ts, temp, ppm, hum),
    {
        self.ensure_sensor(mac);
        let ghost mid = *self;
        let row = EventRow { mac: *mac, ts, temp, ppm, hum };
        let kk = ts.key_u64();
        let n = self.events.len();
        let mut i: usize = 0;
        while i < n && self.events[i].ts.key_u64() < kk
            invariant
                *self == mid,
                n == self.events@.len(),
                i <= n,
                forall|j: int| 0 <= j < i ==> (#[trigger] self.events@[j]).ts.key() < kk,
            decreases n - i,
        {
            i = i + 1;
        }
        let mut j: usize = i;
        while j < n && self.events[j].ts.key_u64() == kk
            invariant
                *self == mid,
                n == self.events@.len(),
                i <= j <= n,
                forall|t: int| 0 <= t < i ==> (#[trigger] self.events@[t]).ts.key() < kk,
                forall|t: int|
                    i <= t < j ==> (#[trigger] self.events@[t]).ts.key() == kk
                        && self.events@[t].mac@ != mac@,
            decreases n - j,
        {
            if mac_eq(&self.events[j].mac, mac) {
                proof {
                    assert(ev_key_is(mid.events@[j as int], mac@, ts.key()));
                    lemma_event_at_index(mid.events@, mac@, ts.key(), j as int);
                    assert(mid.has_event(mac@, ts.key()));
                }
                self.events.set(j, row);
                proof {
                    lemma_events_update_same_key(mid.events@, j as int, row);
                    lemma_event_at_index(self.events@, mac@, ts.key(), j as int);
                    assert forall|i2: int|
                        0 <= i2 < self.events@.len() implies seq_has_mac(
                        self.sensors@,
                        (#[trigger] self.events@[i2]).mac@,
                    ) by {
                        if i2 != j as int {
                            assert(self.events@[i2] == mid.events@[i2]);
                        }
                    }
                    assert(insert_event_post(*old(self), *self, mac@, ts, temp, ppm, hum));
                }
                return ;
            }
            j = j + 1;
        }
        proof {
            assert forall|t: int| i <= t < n implies (#[trigger] mid.events@[t]).ts.key()
                >= ts.key() by {
                if (j as int) <= t {
                    assert(mid.events@[j as int].ts.key() <= mid.events@[t].ts.key());
                }
            }
            assert(!seq_has_event(mid.events@, mac@, ts.key())) by {
                if seq_has_event(mid.events@, mac@, ts.key()) {
                    let t = choose|t: int|
                        0 <= t < mid.events@.len() && #[trigger] ev_key_is(
                            mid.events@[t],
                            mac@,
                            ts.key(),
                        );
                    assert(mid.events@[t].ts.key() == kk);
                }
            }
        }
        self.events.insert(i, row);
        proof {
            lemma_events_insert_new_key(mid.events@, i as int, row);
            assert forall|i2: int|
                0 <= i2 < self.events@.len() implies seq_has_mac(
                self.sensors@,
                (#[trigger] self.events@[i2]).mac@,
            ) by {
                mid.events@.insert_ensures(i as int, row);
                if i2 < i as int {
                    assert(self.events@[i2] == mid.events@[i2]);
                } else if i2 > i as int {
                    assert(self.events@[i2] == mid.events@[i2 - 1]);
                } else {
                    assert(self.events@[i2].mac@ == mac@);
                }
            }
            assert(insert_event_post(*old(self), *self, mac@, ts, temp, ppm, hum));
        }
    }

    /// Store one decoded reading at the given receive time. The row
    /// keyed by the reading's sensor and that timestamp is inserted or
    /// replaced.
    pub fn add_datum(&mut self, datum: Datum, ct: Timestamp)
        requires
            old(self).wf(),
            ct.valid(),
            ct.date.year < 9999,
        ensures
            insert_event_post(
                *old(self),
                *final(self),
                datum.mac@,
                ct,
                datum.temp,
                datum.ppm,
                datum.humidity,
            ),
    {
        let (ppm, hum, temp) = datum.data();
        self.insert_event(&datum.mac, ct, temp, ppm, hum);
    }
}

/// Row `a` of `r` also appears among the first `i` rows of `s`.
pub open spec fn row_from(r: Seq<EventRow>, s: Seq<EventRow>, i: int, a: int) -> bool {
    exists|t: int| 0 <= t < i && r[a] == #[trigger] s[t]
}

/// The predicate selecting the events of sensor `mac` whose calendar
/// day lies in `[lo, hi)`. Range bounds compare the date portion of
/// the timestamp, matching the day granularity of rollup and
/// retention.
pub open spec fn in_day_range(mac: Seq<u8>, lo: Date, hi: Date) -> spec_fn(EventRow) -> bool {
    |e: EventRow| e.mac@ == mac && lo.key() <= e.ts.date.key() < hi.key()
}

/// The events of sensor `mac` with calendar day in `[lo, hi)`, in
/// stored (chronological) order.
pub open spec fn day_range_events(s: Seq<EventRow>, mac: Seq<u8>, lo: Date, hi: Date) -> Seq<
    EventRow,
> {
    s.filter(in_day_range(mac, lo, hi))
}

/// The predicate selecting the event rows a purge at `cutoff` keeps:
/// those whose calendar day is on or after the cutoff day.
pub open spec fn kept_after(cutoff: Date) -> spec_fn(EventRow) -> bool {
    |e: EventRow| e.ts.date.key() >= cutoff.key()
}

/// The event log after a purge at `cutoff`.
pub open spec fn retained_events(s: Seq<EventRow>, cutoff: Date) -> Seq<EventRow> {
    s.filter(kept_after(cutoff))
}

/// The observable effect of `purge_events_before`: only rows strictly
/// before the cutoff day leave, nothing else changes, and `n` counts
/// the deleted rows.
pub open spec fn purge_post(pre: Store, post: Store, cutoff: Date, n: int) -> bool {
    &&& post.wf()
    &&& post.sensors@ == pre.sensors@
    &&& post.rollups@ == pre.rollups@
    &&& post.events@ == retained_events(pre.events@, cutoff)
    &&& n + post.events@.len() == pre.events@.len()
}

/// The observable effect of `upsert_rollup`: insert-or-replace of the
/// rollup row keyed by `(sensor, day)`.
pub open spec fn upsert_rollup_post(pre: Store, post: Store, row: RollupRow) -> bool {
    &&& post.wf()
    &&& post.events@ == pre.events@
    &&& (forall|m: Seq<u8>| post.has_sensor(m) <==> pre.has_sensor(m) || m == row.mac@)
    &&& post.has_rollup(row.mac@, row.day.key())
    &&& post.rollup_at(row.mac@, row.day.key()) == row
    &&& (forall|m: Seq<u8>, k: int|
        !(m == row.mac@ && k == row.day.key()) ==> (post.has_rollup(m, k) <==> pre.has_rollup(
            m,
            k,
        )))
    &&& (forall|m: Seq<u8>, k: int|
        !(m == row.mac@ && k == row.day.key()) && pre.has_rollup(m, k) ==> post.rollup_at(m, k)
            == pre.rollup_at(m, k))
    &&& post.rollups@.len() == pre.rollups@.len() + (if pre.has_rollup(
        row.mac@,
        row.day.key(),
    ) {
        0int
    } else {
        1int
    })
    &&& (pre.has_sensor(row.mac@) ==> post.sensors@ == pre.sensors@)
}

/// `d` is the most recent day with a rollup row for sensor `mac`.
pub open spec fn is_latest_rollup_day(s: Seq<RollupRow>, mac: Seq<u8>, d: Date) -> bool {
    &&& d.valid()
    &&& d.year < 9999
    &&& seq_has_rollup(s, mac, d.key())
    &&& forall|i: int|
        0 <= i < s.len() && (#[trigger] s[i]).mac@ == mac ==> s[i].day.key() <= d.key()
}

/// The most recent rolled-up day for a sensor is unique.
pub proof fn lemma_latest_rollup_day_unique(s: Seq<RollupRow>, mac: Seq<u8>, a: Date, b: Date)
    requires
        is_latest_rollup_day(s, mac, a),
        is_latest_rollup_day(s, mac, b),
    ensures
        a == b,
{
    let i = choose|i: int| 0 <= i < s.len() && #[trigger] rl_key_is(s[i], mac, a.key());
    let j = choose|j: int| 0 <= j < s.len() && #[trigger] rl_key_is(s[j], mac, b.key());
    assert(s[i].day.key() <= b.key());
    assert(s[j].day.key() <= a.key());
    crate::date::lemma_date_key_injective(a, b);
}

/// Some rollup row exists for sensor `mac`.
pub open spec fn some_rollup_for(s: Seq<RollupRow>, mac: Seq<u8>) -> bool {
    exists|i: int| 0 <= i < s.len() && (#[trigger] s[i]).mac@ == mac
}

/// `d` is the earliest day with an event row for sensor `mac`.
pub open spec fn is_earliest_event_day(s: Seq<EventRow>, mac: Seq<u8>, d: Date) -> bool {
    &&& (exists|i: int| 0 <= i < s.len() && (#[trigger] s[i]).mac@ == mac && s[i].ts.date == d)
    &&& forall|i: int|
        0 <= i < s.len() && (#[trigger] s[i]).mac@ == mac ==> s[i].ts.date.key() >= d.key()
}

/// Some event row exists for sensor `mac`.
pub open spec fn some_event_for(s: Seq<EventRow>, mac: Seq<u8>) -> bool {
    exists|i: int| 0 <= i < s.len() && (#[trigger] s[i]).mac@ == mac
}

/// The earliest event day for a sensor is unique.
pub proof fn lemma_earliest_event_day_unique(s: Seq<EventRow>, mac: Seq<u8>, a: Date, b: Date)
    requires
        events_valid(s),
        is_earliest_event_day(s, mac, a),
        is_earliest_event_day(s, mac, b),
    ensures
        a == b,
{
    let i = choose|i: int| 0 <= i < s.len() && (#[trigger] s[i]).mac@ == mac && s[i].ts.date == a;
    let j = choose|j: int| 0 <= j < s.len() && (#[trigger] s[j]).mac@ == mac && s[j].ts.date == b;
    assert(s[i].ts.date.key() >= b.key());
    assert(s[j].ts.date.key() >= a.key());
    crate::date::lemma_date_key_injective(a, b);
}

impl Store {
    /// Event rows for one sensor with calendar day in
    /// `[min_day, max_day)`, ascending by timestamp.
    #[verifier::loop_isolation(false)]
    pub fn query_range(&self, mac: &[u8; 6], min_day: Date, max_day: Date) -> (r: Vec<EventRow>)
        requires
            self.wf(),
            min_day.valid(),
            max_day.valid(),
        ensures
            r@ == day_range_events(self.events@, mac@, min_day, max_day),
            events_sorted(r@),
            events_unique(r@),
            events_valid(r@),
            forall|a: int|
                0 <= a < r@.len() ==> (#[trigger] r@[a]).mac@ == mac@ && min_day.key()
                    <= r@[a].ts.date.key() < max_day.key(),
    {
        let lo_k = min_day.key_u64();
        let hi_k = max_day.key_u64();
        let n = self.events.len();
        let mut r: Vec<EventRow> = Vec::new();
        let mut i: usize = 0;
        while i < n
            invariant
                n == self.events@.len(),
                i <= n,
                r@ == day_range_events(self.events@.take(i as int), mac@, min_day, max_day),
                forall|a: int| 0 <= a < r@.len() ==> #[trigger] row_from(r@, self.events@, i as int, a),
                forall|a: int|
                    0 <= a < r@.len() ==> (#[trigger] r@[a]).mac@ == mac@ && min_day.key()
                        <= r@[a].ts.date.key() < max_day.key(),
                events_sorted(r@),
                events_unique(r@),
                events_valid(r@),
            decreases n - i,
        {
            let e = self.events[i];
            let ghost rr = r@;
            let keep = mac_eq(&e.mac, mac) && lo_k <= e.ts.date.key_u64() && e.ts.date.key_u64()
                < hi_k;
            if keep {
                r.push(e);
            }
            proof {
                assert(self.events@.take(i + 1) =~= self.events@.take(i as int).push(e));
                self.events@.take(i as int).lemma_filter_push(
                    e,
                    in_day_range(mac@, min_day, max_day),
                );
                assert(in_day_range(mac@, min_day, max_day)(e) == keep);
                assert forall|a: int| 0 <= a < r@.len() implies #[trigger] row_from(
                    r@,
                    self.events@,
                    i + 1,
                    a,
                ) by {
                    if a < rr.len() {
                        assert(row_from(rr, self.events@, i as int, a));
                        let t = choose|t: int| 0 <= t < i && rr[a] == #[trigger] self.events@[t];
                        assert(r@[a] == self.events@[t]);
                    } else {
                        assert(r@[a] == self.events@[i as int]);
                    }
                }
                if keep {
                    assert forall|a: int, b: int| 0 <= a <= b < r@.len() implies (
                    #[trigger] r@[a]).ts.key() <= (#[trigger] r@[b]).ts.key() by {
                        if b < rr.len() {
                            assert(rr[a].ts.key() <= rr[b].ts.key());
                        } else if a < rr.len() {
                            assert(row_from(rr, self.events@, i as int, a));
                            let t = choose|t: int|
                                0 <= t < i && rr[a] == #[trigger] self.events@[t];
                            assert(self.events@[t].ts.key() <= self.events@[i as int].ts.key());
                        }
                    }
                    assert forall|a: int, b: int| 0 <= a < b < r@.len() implies !((
                    #[trigger] r@[a]).mac@ == (#[trigger] r@[b]).mac@ && r@[a].ts.key()
                        == r@[b].ts.key()) by {
                        if b < rr.len() {
                            assert(!(rr[a].mac@ == rr[b].mac@ && rr[a].ts.key()
                                == rr[b].ts.key()));
                        } else {
                            assert(row_from(rr, self.events@, i as int, a));
                            let t = choose|t: int|
                                0 <= t < i && rr[a] == #[trigger] self.events@[t];
                            assert(!(self.events@[t].mac@ == self.events@[i as int].mac@
                                && self.events@[t].ts.key() == self.events@[i as int].ts.key()));
                        }
                    }
                }
            }
            i = i + 1;
        }
        proof {
            assert(self.events@.take(n as int) =~= self.events@);
        }
        r
    }

    /// Delete every event row (for any sensor) whose calendar day is
    /// strictly before the cutoff day; rollups and the registry stay.
    /// Returns how many rows were deleted.
    #[verifier::loop_isolation(false)]
    pub fn purge_events_before(&mut self, cutoff: Date) -> (n: usize)
        requires
            old(self).wf(),
            cutoff.valid(),
        ensures
            purge_post(*old(self), *final(self), cutoff, n as int),
            forall|i: int|
                0 <= i < final(self).events@.len() ==> (#[trigger] final(self).events@[i]).ts.date.key()
                    >= cutoff.key(),
            forall|m: Seq<u8>, k: int|
                #[trigger] final(self).has_event(m, k) ==> old(self).has_event(m, k)
                    && final(self).event_at(m, k) == old(self).event_at(m, k),
            forall|m: Seq<u8>, k: int|
                #[trigger] old(self).has_event(m, k) && old(self).event_at(m, k).ts.date.key()
                    >= cutoff.key() ==> final(self).has_event(m, k),
    {
        let ck = cutoff.key_u64();
        let n0 = self.events.len();
        let mut kept: Vec<EventRow> = Vec::new();
        let mut i: usize = 0;
        while i < n0
            invariant
                *self == *old(self),
                n0 == self.events@.len(),
                i <= n0,
                kept@ == retained_events(self.events@.take(i as int), cutoff),
                forall|a: int|
                    0 <= a < kept@.len() ==> #[trigger] row_from(kept@, self.events@, i as int, a),
                forall|a: int|
                    0 <= a < kept@.len() ==> (#[trigger] kept@[a]).ts.date.key() >= cutoff.key(),
                events_sorted(kept@),
                events_unique(kept@),
                events_valid(kept@),
            decreases n0 - i,
        {
            let e = self.events[i];
            let ghost rr = kept@;
            let keep = e.ts.date.key_u64() >= ck;
            if keep {
                kept.push(e);
            }
            proof {
                assert(self.events@.take(i + 1) =~= self.events@.take(i as int).push(e));
                self.events@.take(i as int).lemma_filter_push(e, kept_after(cutoff));
                assert(kept_after(cutoff)(e) == keep);
                assert forall|a: int| 0 <= a < kept@.len() implies #[trigger] row_from(
                    kept@,
                    self.events@,
                    i + 1,
                    a,
                ) by {
                    if a < rr.len() {
                        assert(row_from(rr, self.events@, i as int, a));
                        let t = choose|t: int| 0 <= t < i && rr[a] == #[trigger] self.events@[t];
                        assert(kept@[a] == self.events@[t]);
                    } else {
                        assert(kept@[a] == self.events@[i as int]);
                    }
                }
                if keep {
                    assert forall|a: int, b: int| 0 <= a <= b < kept@.len() implies (
                    #[trigger] kept@[a]).ts.key() <= (#[trigger] kept@[b]).ts.key() by {
                        if b < rr.len() {
                            assert(rr[a].ts.key() <= rr[b].ts.key());
                        } else if a < rr.len() {
                            assert(row_from(rr, self.events@, i as int, a));
                            let t = choose|t: int|
                                0 <= t < i && rr[a] == #[trigger] self.events@[t];
                            assert(self.events@[t].ts.key() <= self.events@[i as int].ts.key());
                        }
                    }
                    assert forall|a: int, b: int| 0 <= a < b < kept@.len() implies !((
                    #[trigger] kept@[a]).mac@ == (#[trigger] kept@[b]).mac@ && kept@[a].ts.key()
                        == kept@[b].ts.key()) by {
                        if b < rr.len() {
                            assert(!(rr[a].mac@ == rr[b].mac@ && rr[a].ts.key()
                                == rr[b].ts.key()));
                        } else {
                            assert(row_from(rr, self.events@, i as int, a));
                            let t = choose|t: int|
                                0 <= t < i && rr[a] == #[trigger] self.events@[t];
                            assert(!(self.events@[t].mac@ == self.events@[i as int].mac@
                                && self.events@[t].ts.key() == self.events@[i as int].ts.key()));
                        }
                    }
                }
            }
            i = i + 1;
        }
        proof {
            assert(self.events@.take(n0 as int) =~= self.events@);
        }
        let removed = n0 - kept.len();
        let ghost pre = *self;
        self.events = kept;
        proof {
            assert(self.events@.len() <= n0) by {
                pre.events@.lemma_filter_len(kept_after(cutoff));
            }
            assert forall|i2: int|
                0 <= i2 < self.events@.len() implies seq_has_mac(
                self.sensors@,
                (#[trigger] self.events@[i2]).mac@,
            ) by {
                assert(row_from(self.events@, pre.events@, n0 as int, i2));
                let t = choose|t: int|
                    0 <= t < n0 && self.events@[i2] == #[trigger] pre.events@[t];
                assert(seq_has_mac(pre.sensors@, pre.events@[t].mac@));
            }
            assert forall|m: Seq<u8>, k: int|
                #[trigger] self.has_event(m, k) implies pre.has_event(m, k) && self.event_at(m, k)
                == pre.event_at(m, k) by {
                let t = choose|t: int|
                    0 <= t < self.events@.len() && #[trigger] ev_key_is(self.events@[t], m, k);
                assert(row_from(self.events@, pre.events@, n0 as int, t));
                let t2 = choose|t2: int|
                    0 <= t2 < n0 && self.events@[t] == #[trigger] pre.events@[t2];
                assert(ev_key_is(pre.events@[t2], m, k));
                lemma_event_at_index(pre.events@, m, k, t2);
                lemma_event_at_index(self.events@, m, k, t);
            }
            assert forall|m: Seq<u8>, k: int|
                #[trigger] pre.has_event(m, k) && pre.event_at(m, k).ts.date.key()
                >= cutoff.key() implies self.has_event(m, k) by {
                let t = choose|t: int|
                    0 <= t < pre.events@.len() && #[trigger] ev_key_is(pre.events@[t], m, k);
                lemma_event_at_index(pre.events@, m, k, t);
                assert(kept_after(cutoff)(pre.events@[t]));
                pre.events@.lemma_filter_contains(kept_after(cutoff), t);
                assert(self.events@.contains(pre.events@[t]));
                let j = choose|j: int|
                    0 <= j < self.events@.len() && self.events@[j] == pre.events@[t];
                assert(ev_key_is(self.events@[j], m, k));
            }
        }
        removed
    }

    /// Insert-or-replace the rollup row keyed by the row's sensor and
    /// day, registering the sensor if unknown.
    #[verifier::loop_isolation(false)]
    pub fn upsert_rollup(&mut self, row: RollupRow)
        requires
            old(self).wf(),
            row.day.valid(),
            row.day.year < 9999,
        ensures
            upsert_rollup_post(*old(self), *final(self), row),
    {
        let mac_arr = row.mac;
        self.ensure_sensor(&mac_arr);
        let ghost mid = *self;
        let dk = row.day.key_u64();
        let n = self.rollups.len();
        let mut i: usize = 0;
        while i < n
            invariant
                *self == mid,
                n == self.rollups@.len(),
                i <= n,
                forall|t: int|
                    0 <= t < i ==> !((#[trigger] self.rollups@[t]).mac@ == mac_arr@
                        && self.rollups@[t].day.key() == row.day.key()),
            decreases n - i,
        {
            if mac_eq(&self.rollups[i].mac, &mac_arr) && self.rollups[i].day.key_u64() == dk {
                proof {
                    assert(rl_key_is(mid.rollups@[i as int], row.mac@, row.day.key()));
                    lemma_rollup_at_index(mid.rollups@, row.mac@, row.day.key(), i as int);
                    assert(mid.has_rollup(row.mac@, row.day.key()));
                }
                self.rollups.set(i, row);
                proof {
                    lemma_rollups_update_same_key(mid.rollups@, i as int, row);
                    lemma_rollup_at_index(self.rollups@, row.mac@, row.day.key(), i as int);
                    assert forall|i2: int|
                        0 <= i2 < self.rollups@.len() implies seq_has_mac(
                        self.sensors@,
                        (#[trigger] self.rollups@[i2]).mac@,
                    ) by {
                        if i2 != i as int {
                            assert(self.rollups@[i2] == mid.rollups@[i2]);
                        }
                    }
                    assert(upsert_rollup_post(*old(self), *self, row));
                }
                return ;
            }
            i = i + 1;
        }
        proof {
            assert(!seq_has_rollup(mid.rollups@, row.mac@, row.day.key())) by {
                if seq_has_rollup(mid.rollups@, row.mac@, row.day.key()) {
                    let t = choose|t: int|
                        0 <= t < mid.rollups@.len() && #[trigger] rl_key_is(
                            mid.rollups@[t],
                            row.mac@,
                            row.day.key(),
                        );
                }
            }
        }
        self.rollups.push(row);
        proof {
            lemma_rollups_push_new_key(mid.rollups@, row);
            assert forall|i2: int|
                0 <= i2 < self.rollups@.len() implies seq_has_mac(
                self.sensors@,
                (#[trigger] self.rollups@[i2]).mac@,
            ) by {
                if i2 < mid.rollups@.len() {
                    assert(self.rollups@[i2] == mid.rollups@[i2]);
                } else {
                    assert(self.rollups@[i2].mac@ == row.mac@);
                }
            }
            assert(upsert_rollup_post(*old(self), *self, row));
        }
    }

    /// The rollup row for one sensor and day, if present.
    #[verifier::loop_isolation(false)]
    pub fn get_rollup(&self, mac: &[u8; 6], day: Date) -> (r: Option<RollupRow>)
        requires
            self.wf(),
            day.valid(),
        ensures
            match r {
                Some(row) => self.has_rollup(mac@, day.key()) && row == self.rollup_at(
                    mac@,
                    day.key(),
                ),
                None => !self.has_rollup(mac@, day.key()),
            },
    {
        let dk = day.key_u64();
        let mut i: usize = 0;
        while i < self.rollups.len()
            invariant
                i <= self.rollups@.len(),
                forall|t: int|
                    0 <= t < i ==> !((#[trigger] self.rollups@[t]).mac@ == mac@
                        && self.rollups@[t].day.key() == day.key()),
            decreases self.rollups@.len() - i,
        {
            if mac_eq(&self.rollups[i].mac, mac) && self.rollups[i].day.key_u64() == dk {
                proof {
                    assert(rl_key_is(self.rollups@[i as int], mac@, day.key()));
                    lemma_rollup_at_index(self.rollups@, mac@, day.key(), i as int);
                }
                return Some(self.rollups[i]);
            }
            i = i + 1;
        }
        proof {
            if self.has_rollup(mac@, day.key()) {
                let t = choose|t: int|
                    0 <= t < self.rollups@.len() && #[trigger] rl_key_is(
                        self.rollups@[t],
                        mac@,
                        day.key(),
                    );
            }
        }
        None
    }

    /// The most recent day with a rollup for this sensor, or `None`
    /// when the sensor has no rollups yet.
    #[verifier::loop_isolation(false)]
    pub fn latest_rollup_day(&self, mac: &[u8; 6]) -> (r: Option<Date>)
        requires
            self.wf(),
        ensures
            match r {
                Some(d) => d.valid() && d.year < 9999 && is_latest_rollup_day(
                    self.rollups@,
                    mac@,
                    d,
                ),
                None => !some_rollup_for(self.rollups@, mac@),
            },
    {
        let n = self.rollups.len();
        let mut best: Option<Date> = None;
        let ghost mut best_i: int = 0;
        let mut i: usize = 0;
        while i < n
            invariant
                n == self.rollups@.len(),
                i <= n,
                match best {
                    Some(d) => {
                        &&& 0 <= best_i < i
                        &&& rl_key_is(self.rollups@[best_i], mac@, d.key())
                        &&& self.rollups@[best_i].day == d
                        &&& forall|t: int|
                            0 <= t < i && (#[trigger] self.rollups@[t]).mac@ == mac@
                                ==> self.rollups@[t].day.key() <= d.key()
                    },
                    None => forall|t: int|
                        0 <= t < i ==> (#[trigger] self.rollups@[t]).mac@ != mac@,
                },
            decreases n - i,
        {
            if mac_eq(&self.rollups[i].mac, mac) {
                let d = self.rollups[i].day;
                let take_it = match best {
                    Some(b) => d.key_u64() > b.key_u64(),
                    None => true,
                };
                if take_it {
                    best = Some(d);
                    proof {
                        best_i = i as int;
                    }
                }
            }
            i = i + 1;
        }
        proof {
            if best is Some {
                lemma_rollup_at_index(self.rollups@, mac@, best->Some_0.key(), best_i);
            }
        }
        best
    }

    /// The earliest day with an event for this sensor, or `None` when
    /// the sensor has no events.
    #[verifier::loop_isolation(false)]
    pub fn earliest_event_day(&self, mac: &[u8; 6]) -> (r: Option<Date>)
        requires
            self.wf(),
        ensures
            match r {
                Some(d) => d.valid() && d.year < 9999 && is_earliest_event_day(
                    self.events@,
                    mac@,
                    d,
                ),
                None => !some_event_for(self.events@, mac@),
            },
    {
        let n = self.events.len();
        let mut best: Option<Date> = None;
        let ghost mut best_i: int = 0;
        let mut i: usize = 0;
        while i < n
            invariant
                n == self.events@.len(),
                i <= n,
                match best {
                    Some(d) => {
                        &&& 0 <= best_i < i
                        &&& self.events@[best_i].mac@ == mac@
                        &&& self.events@[best_i].ts.date == d
                        &&& forall|t: int|
                            0 <= t < i && (#[trigger] self.events@[t]).mac@ == mac@
                                ==> self.events@[t].ts.date.key() >= d.key()
                    },
                    None => forall|t: int|
                        0 <= t < i ==> (#[trigger] self.events@[t]).mac@ != mac@,
                },
            decreases n - i,
        {
            if mac_eq(&self.events[i].mac, mac) {
                let d = self.events[i].ts.date;
                let take_it = match best {
                    Some(b) => d.key_u64() < b.key_u64(),
                    None => true,
                };
                if take_it {
                    best = Some(d);
                    proof {
                        best_i = i as int;
                    }
                }
            }
            i = i + 1;
        }
        proof {
            if best is Some {
                assert(self.events@[best_i].mac@ == mac@ && self.events@[best_i].ts.date
                    == best->Some_0);
            }
        }
        best
    }
}

/// Replacing the rollup row at index `j` with a row carrying the same
/// `(sensor, day)` key leaves every other key untouched.
proof fn lemma_rollups_update_same_key(s: Seq<RollupRow>, j: int, row: RollupRow)
    requires
        rollups_unique(s),
        rollups_valid(s),
        0 <= j < s.len(),
        row.mac@ == s[j].mac@,
        row.day.key() == s[j].day.key(),
        row.day.valid(),
        row.day.year < 9999,
    ensures
        rollups_unique(s.update(j, row)),
        rollups_valid(s.update(j, row)),
        forall|m: Seq<u8>, k: int|
            !(m == row.mac@ && k == row.day.key()) ==> (seq_has_rollup(s.update(j, row), m, k)
                <==> seq_has_rollup(s, m, k)),
        forall|m: Seq<u8>, k: int|
            !(m == row.mac@ && k == row.day.key()) && seq_has_rollup(s, m, k) ==> seq_rollup_at(
                s.update(j, row),
                m,
                k,
            ) == seq_rollup_at(s, m, k),
{
    let s2 = s.update(j, row);
    assert forall|m: Seq<u8>, k: int|
        !(m == row.mac@ && k == row.day.key()) implies (seq_has_rollup(s2, m, k)
        <==> seq_has_rollup(s, m, k)) by {
        if seq_has_rollup(s2, m, k) {
            let t = choose|t: int| 0 <= t < s2.len() && #[trigger] rl_key_is(s2[t], m, k);
            assert(t != j);
            assert(rl_key_is(s[t], m, k));
        }
        if seq_has_rollup(s, m, k) {
            let t = choose|t: int| 0 <= t < s.len() && #[trigger] rl_key_is(s[t], m, k);
            assert(t != j);
            assert(rl_key_is(s2[t], m, k));
        }
    }
    assert forall|m: Seq<u8>, k: int|
        !(m == row.mac@ && k == row.day.key()) && seq_has_rollup(s, m, k) implies seq_rollup_at(
        s2,
        m,
        k,
    ) == seq_rollup_at(s, m, k) by {
        let t = choose|t: int| 0 <= t < s.len() && #[trigger] rl_key_is(s[t], m, k);
        assert(t != j);
        lemma_rollup_at_index(s, m, k, t);
        assert(rl_key_is(s2[t], m, k));
        lemma_rollup_at_index(s2, m, k, t);
    }
}

/// Appending a rollup row whose `(sensor, day)` key is absent adds
/// exactly that key.
proof fn lemma_rollups_push_new_key(s: Seq<RollupRow>, row: RollupRow)
    requires
        rollups_unique(s),
        rollups_valid(s),
        row.day.valid(),
        row.day.year < 9999,
        !seq_has_rollup(s, row.mac@, row.day.key()),
    ensures
        rollups_unique(s.push(row)),
        rollups_valid(s.push(row)),
        seq_has_rollup(s.push(row), row.mac@, row.day.key()),
        seq_rollup_at(s.push(row), row.mac@, row.day.key()) == row,
        forall|m: Seq<u8>, k: int|
            !(m == row.mac@ && k == row.day.key()) ==> (seq_has_rollup(s.push(row), m, k)
                <==> seq_has_rollup(s, m, k)),
        forall|m: Seq<u8>, k: int|
            !(m == row.mac@ && k == row.day.key()) && seq_has_rollup(s, m, k) ==> seq_rollup_at(
                s.push(row),
                m,
                k,
            ) == seq_rollup_at(s, m, k),
{
    let s2 = s.push(row);
    let n = s.len() as int;
    assert forall|a: int, b: int| 0 <= a < b < s2.len() implies !((#[trigger] s2[a]).mac@ == (
    #[trigger] s2[b]).mac@ && s2[a].day.key() == s2[b].day.key()) by {
        if b == n {
            if s2[a].mac@ == row.mac@ && s2[a].day.key() == row.day.key() {
                assert(rl_key_is(s[a], row.mac@, row.day.key()));
            }
        }
    }
    assert(rl_key_is(s2[n], row.mac@, row.day.key()));
    lemma_rollup_at_index(s2, row.mac@, row.day.key(), n);
    assert forall|m: Seq<u8>, k: int|
        !(m == row.mac@ && k == row.day.key()) implies (seq_has_rollup(s2, m, k)
        <==> seq_has_rollup(s, m, k)) by {
        if seq_has_rollup(s2, m, k) {
            let t = choose|t: int| 0 <= t < s2.len() && #[trigger] rl_key_is(s2[t], m, k);
            assert(t != n);
            assert(rl_key_is(s[t], m, k));
        }
        if seq_has_rollup(s, m, k) {
            let t = choose|t: int| 0 <= t < s.len() && #[trigger] rl_key_is(s[t], m, k);
            assert(rl_key_is(s2[t], m, k));
        }
    }
    assert forall|m: Seq<u8>, k: int|
        !(m == row.mac@ && k == row.day.key()) && seq_has_rollup(s, m, k) implies seq_rollup_at(
        s2,
        m,
        k,
    ) == seq_rollup_at(s, m, k) by {
        let t = choose|t: int| 0 <= t < s.len() && #[trigger] rl_key_is(s[t], m, k);
        lemma_rollup_at_index(s, m, k, t);
        assert(rl_key_is(s2[t], m, k));
        lemma_rollup_at_index(s2, m, k, t);
    }
}

/// Replacing the row at index `j` with a row carrying the same
/// `(sensor, timestamp)` key leaves every other key of the log
/// untouched and preserves the log's shape.
proof fn lemma_events_update_same_key(s: Seq<EventRow>, j: int, row: EventRow)
    requires
        events_unique(s),
        events_sorted(s),
        events_valid(s),
        0 <= j < s.len(),
        row.mac@ == s[j].mac@,
        row.ts.key() == s[j].ts.key(),
        row.ts.valid(),
        row.ts.date.year < 9999,
    ensures
        events_unique(s.update(j, row)),
        events_sorted(s.update(j, row)),
        events_valid(s.update(j, row)),
        forall|m: Seq<u8>, k: int|
            !(m == row.mac@ && k == row.ts.key()) ==> (seq_has_event(s.update(j, row), m, k)
                <==> seq_has_event(s, m, k)),
        forall|m: Seq<u8>, k: int|
            !(m == row.mac@ && k == row.ts.key()) && seq_has_event(s, m, k) ==> seq_event_at(
                s.update(j, row),
                m,
                k,
            ) == seq_event_at(s, m, k),
{
    let s2 = s.update(j, row);
    assert forall|m: Seq<u8>, k: int|
        !(m == row.mac@ && k == row.ts.key()) implies (seq_has_event(s2, m, k) <==> seq_has_event(
        s,
        m,
        k,
    )) by {
        if seq_has_event(s2, m, k) {
            let t = choose|t: int| 0 <= t < s2.len() && #[trigger] ev_key_is(s2[t], m, k);
            assert(t != j);
            assert(ev_key_is(s[t], m, k));
        }
        if seq_has_event(s, m, k) {
            let t = choose|t: int| 0 <= t < s.len() && #[trigger] ev_key_is(s[t], m, k);
            assert(t != j);
            assert(ev_key_is(s2[t], m, k));
        }
    }
    assert forall|m: Seq<u8>, k: int|
        !(m == row.mac@ && k == row.ts.key()) && seq_has_event(s, m, k) implies seq_event_at(
        s2,
        m,
        k,
    ) == seq_event_at(s, m, k) by {
        let t = choose|t: int| 0 <= t < s.len() && #[trigger] ev_key_is(s[t], m, k);
        assert(t != j);
        lemma_event_at_index(s, m, k, t);
        assert(ev_key_is(s2[t], m, k));
        lemma_event_at_index(s2, m, k, t);
    }
}

/// Inserting a row whose `(sensor, timestamp)` key is absent, at the
/// position that keeps the log sorted, adds exactly that key and
/// leaves every other key of the log untouched.
proof fn lemma_events_insert_new_key(s: Seq<EventRow>, i: int, row: EventRow)
    requires
        events_unique(s),
        events_sorted(s),
        events_valid(s),
        0 <= i <= s.len(),
        row.ts.valid(),
        row.ts.date.year < 9999,
        forall|t: int| 0 <= t < i ==> (#[trigger] s[t]).ts.key() < row.ts.key(),
        forall|t: int| i <= t < s.len() ==> (#[trigger] s[t]).ts.key() >= row.ts.key(),
        !seq_has_event(s, row.mac@, row.ts.key()),
    ensures
        events_unique(s.insert(i, row)),
        events_sorted(s.insert(i, row)),
        events_valid(s.insert(i, row)),
        seq_has_event(s.insert(i, row), row.mac@, row.ts.key()),
        seq_event_at(s.insert(i, row), row.mac@, row.ts.key()) == row,
        forall|m: Seq<u8>, k: int|
            !(m == row.mac@ && k == row.ts.key()) ==> (seq_has_event(s.insert(i, row), m, k)
                <==> seq_has_event(s, m, k)),
        forall|m: Seq<u8>, k: int|
            !(m == row.mac@ && k == row.ts.key()) && seq_has_event(s, m, k) ==> seq_event_at(
                s.insert(i, row),
                m,
                k,
            ) == seq_event_at(s, m, k),
{
    let s2 = s.insert(i, row);
    s.insert_ensures(i, row);
    assert forall|t: int| 0 <= t < s2.len() && t != i implies s2[t] == s[if t < i {
        t
    } else {
        t - 1
    }] by {}
    assert(events_valid(s2));
    assert forall|a: int, b: int| 0 <= a <= b < s2.len() implies (#[trigger] s2[a]).ts.key() <= (
    #[trigger] s2[b]).ts.key() by {
        let a0 = if a < i { a } else { a - 1 };
        let b0 = if b < i { b } else { b - 1 };
        if a != i && b != i {
            assert(s[a0].ts.key() <= s[b0].ts.key());
        }
    }
    assert forall|a: int, b: int| 0 <= a < b < s2.len() implies !((#[trigger] s2[a]).mac@ == (
    #[trigger] s2[b]).mac@ && s2[a].ts.key() == s2[b].ts.key()) by {
        if a == i {
            if s2[b].ts.key() == row.ts.key() && s2[b].mac@ == row.mac@ {
                assert(ev_key_is(s[b - 1], row.mac@, row.ts.key()));
            }
        } else if b == i {
            if s2[a].ts.key() == row.ts.key() && s2[a].mac@ == row.mac@ {
                assert(ev_key_is(s[a], row.mac@, row.ts.key()));
            }
        }
    }
    assert(ev_key_is(s2[i], row.mac@, row.ts.key()));
    lemma_event_at_index(s2, row.mac@, row.ts.key(), i);
    assert forall|m: Seq<u8>, k: int|
        !(m == row.mac@ && k == row.ts.key()) implies (seq_has_event(s2, m, k) <==> seq_has_event(
        s,
        m,
        k,
    )) by {
        if seq_has_event(s2, m, k) {
            let t = choose|t: int| 0 <= t < s2.len() && #[trigger] ev_key_is(s2[t], m, k);
            assert(t != i);
            if t < i {
                assert(ev_key_is(s[t], m, k));
            } else {
                assert(ev_key_is(s[t - 1], m, k));
            }
        }
        if seq_has_event(s, m, k) {
            let t = choose|t: int| 0 <= t < s.len() && #[trigger] ev_key_is(s[t], m, k);
            if t < i {
                assert(ev_key_is(s2[t], m, k));
            } else {
                assert(ev_key_is(s2[t + 1], m, k));
            }
        }
    }
    assert forall|m: Seq<u8>, k: int|
        !(m == row.mac@ && k == row.ts.key()) && seq_has_event(s, m, k) implies seq_event_at(
        s2,
        m,
        k,
    ) == seq_event_at(s, m, k) by {
        let t = choose|t: int| 0 <= t < s.len() && #[trigger] ev_key_is(s[t], m, k);
        lemma_event_at_index(s, m, k, t);
        if t < i {
            assert(ev_key_is(s2[t], m, k));
            lemma_event_at_index(s2, m, k, t);
        } else {
            assert(ev_key_is(s2[t + 1], m, k));
            lemma_event_at_index(s2, m, k, t + 1);
        }
    }
}

/// An event row with key `(mac, k)` at index `i` is the row the store
/// model returns for that key.
pub proof fn lemma_event_at_index(s: Seq<EventRow>, mac: Seq<u8>, k: int, i: int)
    requires
        events_unique(s),
        0 <= i < s.len(),
        ev_key_is(s[i], mac, k),
    ensures
        seq_has_event(s, mac, k),
        seq_event_at(s, mac, k) == s[i],
{
    assert(seq_has_event(s, mac, k));
    let j = choose|j: int| 0 <= j < s.len() && #[trigger] ev_key_is(s[j], mac, k);
    assert(s[j].mac@ == s[i].mac@ && s[j].ts.key() == s[i].ts.key());
    if i < j {
        assert(false);
    } else if j < i {
        assert(false);
    }
}

/// A rollup row with key `(mac, dk)` at index `i` is the row the store
/// model returns for that key.
pub proof fn lemma_rollup_at_index(s: Seq<RollupRow>, mac: Seq<u8>, dk: int, i: int)
    requires
        rollups_unique(s),
        0 <= i < s.len(),
        rl_key_is(s[i], mac, dk),
    ensures
        seq_has_rollup(s, mac, dk),
        seq_rollup_at(s, mac, dk) == s[i],
{
    assert(seq_has_rollup(s, mac, dk));
    let j = choose|j: int| 0 <= j < s.len() && #[trigger] rl_key_is(s[j], mac, dk);
    assert(s[j].mac@ == s[i].mac@ && s[j].day.key() == s[i].day.key());
    if i < j {
        assert(false);
    } else if j < i {
        assert(false);
    }
}

/// A purge keeps a log unchanged when every row is already on or
/// after the cutoff day.
pub proof fn lemma_retained_all(s: Seq<EventRow>, cutoff: Date)
    requires
        forall|i: int| 0 <= i < s.len() ==> (#[trigger] s[i]).ts.date.key() >= cutoff.key(),
    ensures
        retained_events(s, cutoff) == s,
    decreases s.len(),
{
    reveal(Seq::filter);
    if s.len() == 0 {
        assert(retained_events(s, cutoff) =~= s);
    } else {
        lemma_retained_all(s.drop_last(), cutoff);
        assert(kept_after(cutoff)(s.last()));
        assert(retained_events(s, cutoff) =~= s);
    }
}

/// Purge monotonicity and idempotence: after a purge at `cutoff` no
/// remaining event row's calendar day is before the cutoff, and a
/// second purge at the same cutoff deletes nothing and changes
/// nothing.
pub proof fn lemma_purge_idempotent(
    pre: Store,
    mid: Store,
    post: Store,
    cutoff: Date,
    n1: int,
    n2: int,
)
    requires
        purge_post(pre, mid, cutoff, n1),
        purge_post(mid, post, cutoff, n2),
    ensures
        forall|i: int|
            0 <= i < mid.events@.len() ==> (#[trigger] mid.events@[i]).ts.date.key()
                >= cutoff.key(),
        post.events@ == mid.events@,
        n2 == 0,
        post.rollups@ == mid.rollups@,
        post.sensors@ == mid.sensors@,
{
    assert forall|i: int|
        0 <= i < mid.events@.len() implies (#[trigger] mid.events@[i]).ts.date.key()
        >= cutoff.key() by {
        pre.events@.lemma_filter_pred(kept_after(cutoff), i);
        assert(kept_after(cutoff)(mid.events@[i]));
    }
    lemma_retained_all(mid.events@, cutoff);
}

/// Replace semantics: after inserting two events for the same sensor
/// and the same timestamp, exactly one event row carries that key, and
/// it holds the second insert's values; the log did not grow on the
/// second insert.
pub proof fn lemma_insert_replaces(
    s0: Store,
    s1: Store,
    s2: Store,
    mac: Seq<u8>,
    ts: Timestamp,
    temp1: u16,
    ppm1: u16,
    hum1: u16,
    temp2: u16,
    ppm2: u16,
    hum2: u16,
)
    requires
        insert_event_post(s0, s1, mac, ts, temp1, ppm1, hum1),
        insert_event_post(s1, s2, mac, ts, temp2, ppm2, hum2),
    ensures
        s2.has_event(mac, ts.key()),
        s2.event_at(mac, ts.key()).temp == temp2,
        s2.event_at(mac, ts.key()).ppm == ppm2,
        s2.event_at(mac, ts.key()).hum == hum2,
        forall|i: int, j: int|
            0 <= i < s2.events@.len() && 0 <= j < s2.events@.len() && #[trigger] ev_key_is(
                s2.events@[i],
                mac,
                ts.key(),
            ) && #[trigger] ev_key_is(s2.events@[j], mac, ts.key()) ==> i == j,
        forall|i: int|
            0 <= i < s2.events@.len() && #[trigger] ev_key_is(s2.events@[i], mac, ts.key())
                ==> s2.events@[i].ts == ts,
        s2.events@.len() == s1.events@.len(),
{
    assert forall|i: int|
        0 <= i < s2.events@.len() && #[trigger] ev_key_is(s2.events@[i], mac, ts.key()) implies s2.events@[i].ts
        == ts by {
        lemma_event_at_index(s2.events@, mac, ts.key(), i);
    }
    assert forall|i: int, j: int|
        0 <= i < s2.events@.len() && 0 <= j < s2.events@.len() && #[trigger] ev_key_is(
            s2.events@[i],
            mac,
            ts.key(),
        ) && #[trigger] ev_key_is(s2.events@[j], mac, ts.key()) implies i == j by {
        if i < j {
            assert(false);
        } else if j < i {
            assert(false);
        }
    }
}

} // verus!
