//! The rollup engine and retention purge.
//!
//! On each scheduler tick the engine walks, per sensor, the complete
//! calendar days that are not yet summarized, aggregates each day's
//! detail rows into a daily min/max/average rollup, and hands the
//! resulting boundary day to the retention purge, which deletes detail
//! rows older than the boundary minus the retention window.

use vstd::prelude::*;

use crate::date::{
    lemma_date_key_injective, lemma_next_of_prev_of, minus_days, next_of, prev_of, Date,
};
use crate::store::{
    is_earliest_event_day, is_latest_rollup_day, day_range_events, purge_post, seq_has_rollup,
    seq_rollup_at, some_event_for, some_rollup_for, EventRow, RollupRow, Store,
};

verus! {

/// Days of detail events kept behind the rollup boundary by default.
pub const RETAIN_DAYS: u64 = 4;

/// Minimum of a run of samples, folded from the largest `u16`.
pub open spec fn seq_min(s: Seq<u16>) -> u16
    decreases s.len(),
{
    if s.len() == 0 {
        0xffff
    } else {
        let m = seq_min(s.drop_last());
        if s.last() < m {
            s.last()
        } else {
            m
        }
    }
}

/// Maximum of a run of samples, folded from zero.
pub open spec fn seq_max(s: Seq<u16>) -> u16
    decreases s.len(),
{
    if s.len() == 0 {
        0
    } else {
        let m = seq_max(s.drop_last());
        if s.last() > m {
            s.last()
        } else {
            m
        }
    }
}

/// Sum of a run of samples.
pub open spec fn seq_sum(s: Seq<u16>) -> int
    decreases s.len(),
{
    if s.len() == 0 {
        0
    } else {
        seq_sum(s.drop_last()) + s.last()
    }
}

pub open spec fn temps(s: Seq<EventRow>) -> Seq<u16> {
    s.map_values(|e: EventRow| e.temp)
}

pub open spec fn ppms(s: Seq<EventRow>) -> Seq<u16> {
    s.map_values(|e: EventRow| e.ppm)
}

pub open spec fn hums(s: Seq<EventRow>) -> Seq<u16> {
    s.map_values(|e: EventRow| e.hum)
}

/// `r` carries exactly the aggregates of the day's rows `s`: per
/// metric the smallest and largest observed value and the
/// integer-truncated mean.
pub open spec fn aggregates_of(s: Seq<EventRow>, r: RollupRow) -> bool {
    &&& r.temp_min == seq_min(temps(s))
    &&& r.temp_max == seq_max(temps(s))
    &&& r.temp_avg as int == seq_sum(temps(s)) / (s.len() as int)
    &&& r.ppm_min == seq_min(ppms(s))
    &&& r.ppm_max == seq_max(ppms(s))
    &&& r.ppm_avg as int == seq_sum(ppms(s)) / (s.len() as int)
    &&& r.hum_min == seq_min(hums(s))
    &&& r.hum_max == seq_max(hums(s))
    &&& r.hum_avg as int == seq_sum(hums(s)) / (s.len() as int)
}

/// The events of sensor `mac` on exactly the calendar day `d`.
pub open spec fn day_events(s: Seq<EventRow>, mac: Seq<u8>, d: Date) -> Seq<EventRow> {
    day_range_events(s, mac, d, next_of(d))
}

/// The first representable day.
pub open spec fn first_day() -> Date {
    Date { year: 1, month: 1, day: 1 }
}

/// The epoch day the engine reports as a boundary when a sensor has
/// no data at all to roll up.
pub open spec fn epoch_day() -> Date {
    Date { year: 1970, month: 1, day: 1 }
}

/// Aggregate one day's rows into a rollup row for that sensor and day.
#[verifier::loop_isolation(false)]
pub fn compute_aggregates(rows: &Vec<EventRow>, mac: &[u8; 6], day: Date) -> (r: RollupRow)
    requires
        rows@.len() > 0,
    ensures
        r.mac@ == mac@,
        r.day == day,
        aggregates_of(rows@, r),
{
    let n = rows.len();
    let mut tmin: u16 = 0xffff;
    let mut tmax: u16 = 0;
    let mut tsum: u128 = 0;
    let mut pmin: u16 = 0xffff;
    let mut pmax: u16 = 0;
    let mut psum: u128 = 0;
    let mut hmin: u16 = 0xffff;
    let mut hmax: u16 = 0;
    let mut hsum: u128 = 0;
    let mut i: usize = 0;
    while i < n
        invariant
            i <= n,
            n == rows@.len(),
            tmin == seq_min(temps(rows@.take(i as int))),
            tmax == seq_max(temps(rows@.take(i as int))),
            tsum == seq_sum(temps(rows@.take(i as int))),
            tsum <= 0xffff * (i as int),
            pmin == seq_min(ppms(rows@.take(i as int))),
            pmax == seq_max(ppms(rows@.take(i as int))),
            psum == seq_sum(ppms(rows@.take(i as int))),
            psum <= 0xffff * (i as int),
            hmin == seq_min(hums(rows@.take(i as int))),
            hmax == seq_max(hums(rows@.take(i as int))),
            hsum == seq_sum(hums(rows@.take(i as int))),
            hsum <= 0xffff * (i as int),
        decreases n - i,
    {
        let e = rows[i];
        proof {
            assert(rows@.take(i + 1).drop_last() =~= rows@.take(i as int));
            assert(temps(rows@.take(i + 1)).drop_last() =~= temps(rows@.take(i as int)));
            assert(ppms(rows@.take(i + 1)).drop_last() =~= ppms(rows@.take(i as int)));
            assert(hums(rows@.take(i + 1)).drop_last() =~= hums(rows@.take(i as int)));
            assert(temps(rows@.take(i + 1)).last() == e.temp);
            assert(ppms(rows@.take(i + 1)).last() == e.ppm);
            assert(hums(rows@.take(i + 1)).last() == e.hum);
        }
        tmin = if e.temp < tmin {
            e.temp
        } else {
            tmin
        };
        tmax = if e.temp > tmax {
            e.temp
        } else {
            tmax
        };
        tsum = tsum + e.temp as u128;
        pmin = if e.ppm < pmin {
            e.ppm
        } else {
            pmin
        };
        pmax = if e.ppm > pmax {
            e.ppm
        } else {
            pmax
        };
        psum = psum + e.ppm as u128;
        hmin = if e.hum < hmin {
            e.hum
        } else {
            hmin
        };
        hmax = if e.hum > hmax {
            e.hum
        } else {
            hmax
        };
        hsum = hsum + e.hum as u128;
        i = i + 1;
    }
    proof {
        assert(rows@.take(n as int) =~= rows@);
    }
    let cnt = n as u128;
    let tavg = tsum / cnt;
    let pavg = psum / cnt;
    let havg = hsum / cnt;
    proof {
        assert(tavg <= 0xffff && pavg <= 0xffff && havg <= 0xffff) by (nonlinear_arith)
            requires
                cnt > 0,
                tavg == tsum / cnt,
                pavg == psum / cnt,
                havg == hsum / cnt,
                tsum <= 0xffff * cnt,
                psum <= 0xffff * cnt,
                hsum <= 0xffff * cnt,
        {}
    }
    RollupRow {
        mac: *mac,
        day,
        temp_min: tmin,
        temp_max: tmax,
        temp_avg: tavg as u16,
        ppm_min: pmin,
        ppm_max: pmax,
        ppm_avg: pavg as u16,
        hum_min: hmin,
        hum_max: hmax,
        hum_avg: havg as u16,
    }
}

impl Store {
    /// The day reporting starts after: the most recent rolled-up day
    /// if rollups exist, else the day before the earliest event (so
    /// that the first rollup covers the earliest day itself), else an
    /// error when the sensor has no data at all. Also fails on the
    /// unrepresentable edge where the earliest event sits on the first
    /// representable day.
    pub fn get_latest_report_date(&self, mac: &[u8; 6]) -> (r: Result<Date, ()>)
        requires
            self.wf(),
        ensures
            some_rollup_for(self.rollups@, mac@) ==> (r matches Ok(d) && is_latest_rollup_day(
                self.rollups@,
                mac@,
                d,
            )),
            !some_rollup_for(self.rollups@, mac@) && some_event_for(self.events@, mac@) ==> (
            exists|ed: Date|
                #[trigger] is_earliest_event_day(self.events@, mac@, ed) && (if ed == first_day() {
                    r == Result::<Date, ()>::Err(())
                } else {
                    r == Result::<Date, ()>::Ok(prev_of(ed))
                })),
            !some_rollup_for(self.rollups@, mac@) && !some_event_for(self.events@, mac@) ==> r
                == Result::<Date, ()>::Err(()),
            r matches Ok(d) ==> d.valid() && d.year < 9999,
    {
        match self.latest_rollup_day(mac) {
            Some(d) => Ok(d),
            None => {
                match self.earliest_event_day(mac) {
                    Some(ed) => {
                        if ed.year == 1 && ed.month == 1 && ed.day == 1 {
                            Err(())
                        } else {
                            let p = ed.prev_day();
                            proof {
                                assert(p.year < 9999);
                            }
                            Ok(p)
                        }
                    },
                    None => Err(()),
                }
            },
        }
    }
}

/// Day `d`'s rollup for sensor `mac` stands in `rls`, keyed right and
/// carrying the aggregates of that day's rows in `evs`; the day had
/// at least one detail row.
pub open spec fn rollup_day_written(
    evs: Seq<EventRow>,
    rls: Seq<RollupRow>,
    mac: Seq<u8>,
    d: Date,
) -> bool {
    &&& day_events(evs, mac, d).len() > 0
    &&& seq_has_rollup(rls, mac, d.key())
    &&& seq_rollup_at(rls, mac, d.key()).mac@ == mac
    &&& seq_rollup_at(rls, mac, d.key()).day == d
    &&& aggregates_of(day_events(evs, mac, d), seq_rollup_at(rls, mac, d.key()))
}

/// Between `pre` and `post`, rollup keys other than sensor `mac`'s
/// day keys in `[lo, hi)` are untouched.
pub open spec fn rollups_untouched_outside(
    pre: Store,
    post: Store,
    mac: Seq<u8>,
    lo: int,
    hi: int,
) -> bool {
    &&& (forall|m: Seq<u8>, k: int|
        m != mac || k < lo || k >= hi ==> (post.has_rollup(m, k) <==> pre.has_rollup(m, k)))
    &&& (forall|m: Seq<u8>, k: int|
        (m != mac || k < lo || k >= hi) && pre.has_rollup(m, k) ==> post.rollup_at(m, k)
            == pre.rollup_at(m, k))
}

/// The registry after a write pass for sensor `mac`: that sensor is
/// registered, everything else is as before.
pub open spec fn sensors_extended(pre: Store, post: Store, mac: Seq<u8>) -> bool {
    forall|m: Seq<u8>| post.has_sensor(m) <==> pre.has_sensor(m) || m == mac
}

/// The first day the engine rolls up for sensor `mac`: the day after
/// the most recent rollup; with no rollups yet, the earliest event
/// day itself (the report origin is the day before it, so the first
/// rollup covers that earliest day).
pub open spec fn report_start_day(pre: Store, mac: Seq<u8>, d: Date) -> bool {
    if some_rollup_for(pre.rollups@, mac) {
        exists|lr: Date|
            #[trigger] is_latest_rollup_day(pre.rollups@, mac, lr) && d == next_of(lr)
    } else {
        is_earliest_event_day(pre.events@, mac, d) && d != first_day()
    }
}

/// Sensor `mac` gives the engine nothing to start from: no rollups,
/// and either no events or only events on the first representable day
/// (which has no day before it to report from).
pub open spec fn report_no_data(pre: Store, mac: Seq<u8>) -> bool {
    &&& !some_rollup_for(pre.rollups@, mac)
    &&& (!some_event_for(pre.events@, mac) || is_earliest_event_day(
        pre.events@,
        mac,
        first_day(),
    ))
}

/// The observable effect of one rollup engine run for one sensor:
/// either every complete day from the start day up to (excluding)
/// `upto` got its aggregates (result `Ok(upto)`, or `Ok(start)` with
/// nothing to do), or the engine halted on the first day without data
/// (result `Err(halt day)`), having written all days before it.
/// Detail events are never touched.
pub open spec fn report_post(
    pre: Store,
    post: Store,
    mac: Seq<u8>,
    upto: Date,
    r: Result<Date, Date>,
) -> bool {
    &&& post.wf()
    &&& post.events@ == pre.events@
    &&& (r matches Ok(b) ==> b.valid())
    &&& (r matches Err(h) ==> h.valid())
    &&& (pre.has_sensor(mac) ==> post.sensors@ == pre.sensors@)
    &&& (report_no_data(pre, mac) ==> r == Result::<Date, Date>::Err(epoch_day())
        && post.rollups@ == pre.rollups@ && post.sensors@ == pre.sensors@)
    &&& (forall|start: Date|
        #[trigger] report_start_day(pre, mac, start) ==> if start.key() >= upto.key() {
            &&& r == Result::<Date, Date>::Ok(start)
            &&& post.rollups@ == pre.rollups@
            &&& post.sensors@ == pre.sensors@
        } else {
            match r {
                Ok(b) => {
                    &&& b == upto
                    &&& (forall|d: Date|
                        d.valid() && start.key() <= d.key() < upto.key()
                            ==> #[trigger] rollup_day_written(pre.events@, post.rollups@, mac, d))
                    &&& rollups_untouched_outside(pre, post, mac, start.key(), upto.key())
                    &&& sensors_extended(pre, post, mac)
                },
                Err(h) => {
                    &&& h.valid()
                    &&& start.key() <= h.key() < upto.key()
                    &&& day_events(pre.events@, mac, h).len() == 0
                    &&& (forall|d: Date|
                        d.valid() && start.key() <= d.key() < h.key()
                            ==> #[trigger] rollup_day_written(pre.events@, post.rollups@, mac, d))
                    &&& rollups_untouched_outside(pre, post, mac, start.key(), h.key())
                    &&& (h == start ==> post.rollups@ == pre.rollups@ && post.sensors@
                        == pre.sensors@)
                    &&& (h != start ==> sensors_extended(pre, post, mac))
                },
            }
        })
}

/// The engine's start day for a sensor is unique.
pub proof fn lemma_report_start_unique(pre: Store, mac: Seq<u8>, a: Date, b: Date)
    requires
        pre.wf(),
        report_start_day(pre, mac, a),
        report_start_day(pre, mac, b),
    ensures
        a == b,
{
    if some_rollup_for(pre.rollups@, mac) {
        let la = choose|lr: Date|
            #[trigger] is_latest_rollup_day(pre.rollups@, mac, lr) && a == next_of(lr);
        let lb = choose|lr: Date|
            #[trigger] is_latest_rollup_day(pre.rollups@, mac, lr) && b == next_of(lr);
        crate::store::lemma_latest_rollup_day_unique(pre.rollups@, mac, la, lb);
    } else {
        crate::store::lemma_earliest_event_day_unique(pre.events@, mac, a, b);
    }
}

impl Store {
    /// Run the rollup engine for one sensor: roll up every complete
    /// calendar day from the start day (see `report_start_day`) up to
    /// but excluding `upto`, which is the current, possibly
    /// incomplete, day. On success the new boundary `upto` is
    /// returned; a day without any detail rows halts the run and the
    /// boundary reached so far is returned as the error, so the purge
    /// can still act on verified data.
    #[verifier::loop_isolation(false)]
    #[verifier::rlimit(60)]
    pub fn extract_report(&mut self, mac: &[u8; 6], upto: Date) -> (r: Result<Date, Date>)
        requires
            old(self).wf(),
            upto.valid(),
            upto.year < 9999,
        ensures
            report_post(*old(self), *final(self), mac@, upto, r),
    {
        let ghost pre = *old(self);
        let latest = match self.get_latest_report_date(mac) {
            Ok(d) => d,
            Err(()) => {
                proof {
                    assert(!some_rollup_for(pre.rollups@, mac@));
                    if some_event_for(pre.events@, mac@) {
                        let ed = choose|ed: Date|
                            #[trigger] is_earliest_event_day(pre.events@, mac@, ed) && (if ed
                                == first_day() {
                                Result::<Date, ()>::Err(()) == Result::<Date, ()>::Err(())
                            } else {
                                Result::<Date, ()>::Err(()) == Result::<Date, ()>::Ok(prev_of(ed))
                            });
                        assert(ed == first_day());
                        assert(report_no_data(pre, mac@));
                        assert forall|start: Date|
                            #[trigger] report_start_day(pre, mac@, start) implies false by {
                            crate::store::lemma_earliest_event_day_unique(
                                pre.events@,
                                mac@,
                                start,
                                first_day(),
                            );
                        }
                    } else {
                        assert(report_no_data(pre, mac@));
                        assert forall|start: Date|
                            #[trigger] report_start_day(pre, mac@, start) implies false by {
                            let i = choose|i: int|
                                0 <= i < pre.events@.len() && (#[trigger] pre.events@[i]).mac@
                                    == mac@ && pre.events@[i].ts.date == start;
                        }
                    }
                }
                return Err(Date { year: 1970, month: 1, day: 1 });
            },
        };
        let mut work = latest.next_day();
        let ghost start = work;
        proof {
            assert(report_start_day(pre, mac@, start)) by {
                if some_rollup_for(pre.rollups@, mac@) {
                    assert(is_latest_rollup_day(pre.rollups@, mac@, latest));
                } else {
                    let ed = choose|ed: Date|
                        #[trigger] is_earliest_event_day(pre.events@, mac@, ed) && (if ed
                            == first_day() {
                            Result::<Date, ()>::Ok(latest) == Result::<Date, ()>::Err(())
                        } else {
                            Result::<Date, ()>::Ok(latest) == Result::<Date, ()>::Ok(prev_of(ed))
                        });
                    assert(ed != first_day());
                    assert(latest == prev_of(ed));
                    let i = choose|i: int|
                        0 <= i < pre.events@.len() && (#[trigger] pre.events@[i]).mac@ == mac@
                            && pre.events@[i].ts.date == ed;
                    assert(ed.valid());
                    lemma_next_of_prev_of(ed);
                    assert(start == ed);
                }
            }
            assert(!report_no_data(pre, mac@)) by {
                if report_no_data(pre, mac@) {
                    if some_rollup_for(pre.rollups@, mac@) {
                    } else if some_event_for(pre.events@, mac@) {
                        assert(is_earliest_event_day(pre.events@, mac@, first_day()));
                    } else {
                        if report_start_day(pre, mac@, start) {
                            let i = choose|i: int|
                                0 <= i < pre.events@.len() && (#[trigger] pre.events@[i]).mac@
                                    == mac@ && pre.events@[i].ts.date == start;
                        }
                    }
                }
            }
        }
        while work.key_u64() < upto.key_u64()
            invariant
                self.wf(),
                self.events@ == pre.events@,
                work.valid(),
                start.key() <= work.key(),
                work.key() <= upto.key() || work == start,
                forall|d: Date|
                    d.valid() && start.key() <= d.key() < work.key()
                        ==> #[trigger] rollup_day_written(pre.events@, self.rollups@, mac@, d),
                rollups_untouched_outside(pre, *self, mac@, start.key(), work.key()),
                work == start ==> self.rollups@ == pre.rollups@ && self.sensors@ == pre.sensors@,
                work != start ==> sensors_extended(pre, *self, mac@),
                pre.has_sensor(mac@) ==> self.sensors@ == pre.sensors@,
            decreases upto.key() - work.key(),
        {
            proof {
                assert(work.year as int <= upto.year as int);
                assert(!(work.year == 9999 && work.month == 12 && work.day == 31));
            }
            let nxt = work.next_day();
            proof {
                assert(nxt.key() <= upto.key());
            }
            let day_rows = self.query_range(mac, work, nxt);
            proof {
                assert(day_rows@ == day_events(pre.events@, mac@, work));
            }
            if day_rows.len() == 0 {
                proof {
                    let h = work;
                    assert forall|s2: Date|
                        #[trigger] report_start_day(pre, mac@, s2) implies s2 == start by {
                        lemma_report_start_unique(pre, mac@, s2, start);
                    }
                    assert(day_events(pre.events@, mac@, h).len() == 0);
                }
                return Err(work);
            }
            let row = compute_aggregates(&day_rows, mac, work);
            let ghost mid = *self;
            proof {
                assert(work.year < 9999);
            }
            self.upsert_rollup(row);
            proof {
                assert forall|d: Date|
                    d.valid() && start.key() <= d.key() < nxt.key() implies #[trigger] rollup_day_written(
                    pre.events@,
                    self.rollups@,
                    mac@,
                    d,
                ) by {
                    if d.key() < work.key() {
                        assert(rollup_day_written(pre.events@, mid.rollups@, mac@, d));
                        assert(!(mac@ == row.mac@ && d.key() == row.day.key()));
                        assert(mid.has_rollup(mac@, d.key()));
                        assert(self.has_rollup(mac@, d.key()));
                        assert(self.rollup_at(mac@, d.key()) == mid.rollup_at(mac@, d.key()));
                        assert(seq_has_rollup(self.rollups@, mac@, d.key()));
                        assert(seq_rollup_at(self.rollups@, mac@, d.key()) == seq_rollup_at(
                            mid.rollups@,
                            mac@,
                            d.key(),
                        ));
                    } else {
                        assert(!(work.key() < d.key() < nxt.key()));
                        lemma_date_key_injective(d, work);
                        assert(d == work);
                        assert(self.has_rollup(mac@, work.key()));
                        assert(self.rollup_at(mac@, work.key()) == row);
                        assert(seq_rollup_at(self.rollups@, mac@, work.key()) == row);
                        assert(aggregates_of(day_events(pre.events@, mac@, work), row));
                    }
                }
                assert forall|m: Seq<u8>, k: int|
                    m != mac@ || k < start.key() || k >= nxt.key() implies (self.has_rollup(m, k)
                    <==> pre.has_rollup(m, k)) by {
                    assert(!(m == row.mac@ && k == row.day.key()));
                    assert(self.has_rollup(m, k) <==> mid.has_rollup(m, k));
                }
                assert forall|m: Seq<u8>, k: int|
                    (m != mac@ || k < start.key() || k >= nxt.key()) && pre.has_rollup(
                        m,
                        k,
                    ) implies self.rollup_at(m, k) == pre.rollup_at(m, k) by {
                    assert(!(m == row.mac@ && k == row.day.key()));
                    assert(self.rollup_at(m, k) == mid.rollup_at(m, k));
                }
                assert(sensors_extended(pre, *self, mac@));
                if pre.has_sensor(mac@) {
                    assert(mid.sensors@ == pre.sensors@);
                    assert(mid.has_sensor(mac@));
                    assert(self.sensors@ == mid.sensors@);
                }
                assert(nxt != start);
            }
            work = nxt;
        }
        proof {
            assert forall|s2: Date|
                #[trigger] report_start_day(pre, mac@, s2) implies s2 == start by {
                lemma_report_start_unique(pre, mac@, s2, start);
            }
            if start.key() >= upto.key() {
                if work != start {
                    assert(work.key() == start.key());
                    lemma_date_key_injective(work, start);
                }
                assert(work == start);
            } else {
                assert(work.key() == upto.key());
                lemma_date_key_injective(work, upto);
                assert(work == upto);
                assert(work != start);
            }
        }
        Ok(work)
    }
}

/// Detail events only disappear: every event row of `post` already
/// stood, with the same values, in `pre`.
pub open spec fn events_shrunk(pre: Store, post: Store) -> bool {
    &&& (forall|m: Seq<u8>, k: int| #[trigger] post.has_event(m, k) ==> pre.has_event(m, k))
    &&& (forall|m: Seq<u8>, k: int|
        #[trigger] post.has_event(m, k) ==> post.event_at(m, k) == pre.event_at(m, k))
}

/// The boundary day a tick purges from: the day the engine reached,
/// whether the run completed or halted partway.
pub open spec fn tick_boundary(r: Result<Date, Date>) -> Date {
    match r {
        Ok(b) => b,
        Err(b) => b,
    }
}

/// One sensor's share of a maintenance tick: an engine run up to
/// `today` (`report_post`), then a purge at the reached boundary minus
/// the retention window (`purge_post`); a boundary too early to
/// subtract the window from purges nothing. A halted run still
/// purges, from the partial boundary it reached.
pub open spec fn sensor_tick(
    pre: Store,
    post: Store,
    mac: [u8; 6],
    today: Date,
    retain: u64,
) -> bool {
    exists|mid: Store, r: Result<Date, Date>|
        {
            &&& #[trigger] report_post(pre, mid, mac@, today, r)
            &&& match minus_days(tick_boundary(r), retain as nat) {
                Some(cutoff) => exists|n: int| #[trigger] purge_post(mid, post, cutoff, n),
                None => post == mid,
            }
        }
}

/// A maintenance pass over the sensors `macs`, in order: `post` is
/// reached from `pre` by one `sensor_tick` per listed sensor. One
/// sensor's halted engine run does not stop the others: the chain
/// continues with the next sensor whatever the engine returned.
pub open spec fn maintenance_ticks(
    pre: Store,
    post: Store,
    macs: Seq<[u8; 6]>,
    today: Date,
    retain: u64,
) -> bool
    decreases macs.len(),
{
    if macs.len() == 0 {
        post == pre
    } else {
        exists|mid: Store|
            #[trigger] sensor_tick(pre, mid, macs[0], today, retain) && maintenance_ticks(
                mid,
                post,
                macs.skip(1),
                today,
                retain,
            )
    }
}

/// A maintenance pass grows by one sensor at its tail.
proof fn lemma_maintenance_ticks_push(
    pre: Store,
    mid: Store,
    post: Store,
    macs: Seq<[u8; 6]>,
    mac: [u8; 6],
    today: Date,
    retain: u64,
)
    requires
        maintenance_ticks(pre, mid, macs, today, retain),
        sensor_tick(mid, post, mac, today, retain),
    ensures
        maintenance_ticks(pre, post, macs.push(mac), today, retain),
    decreases macs.len(),
{
    if macs.len() == 0 {
        assert(mid == pre);
        assert(macs.push(mac)[0] == mac);
        assert(macs.push(mac).skip(1) =~= Seq::<[u8; 6]>::empty());
        assert(sensor_tick(pre, post, macs.push(mac)[0], today, retain));
        assert(maintenance_ticks(post, post, macs.push(mac).skip(1), today, retain));
    } else {
        let m1 = choose|m1: Store|
            #[trigger] sensor_tick(pre, m1, macs[0], today, retain) && maintenance_ticks(
                m1,
                mid,
                macs.skip(1),
                today,
                retain,
            );
        lemma_maintenance_ticks_push(m1, mid, post, macs.skip(1), mac, today, retain);
        assert(macs.push(mac).skip(1) =~= macs.skip(1).push(mac));
        assert(macs.push(mac)[0] == macs[0]);
        assert(sensor_tick(pre, m1, macs.push(mac)[0], today, retain));
        assert(maintenance_ticks(m1, post, macs.push(mac).skip(1), today, retain));
    }
}

impl Store {
    /// One scheduler tick: for every sensor the registry lists, in
    /// registry order, run the rollup engine up to `today` and purge
    /// detail events older than the boundary it reached minus the
    /// retention window (`maintenance_ticks` states the pass exactly).
    /// A halted run still yields a conservative boundary that the
    /// purge uses, and one sensor's halt does not stop the others.
    /// The purge deletes by day across all sensors
    /// (global-by-timestamp retention, as the store purges by
    /// timestamp only).
    #[verifier::loop_isolation(false)]
    pub fn run_maintenance(&mut self, today: Date, retain_days: u64)
        requires
            old(self).wf(),
            today.valid(),
            today.year < 9999,
        ensures
            final(self).wf(),
            final(self).sensors@ == old(self).sensors@,
            events_shrunk(*old(self), *final(self)),
            maintenance_ticks(
                *old(self),
                *final(self),
                old(self).sensors@,
                today,
                retain_days,
            ),
    {
        let ghost pre = *old(self);
        let macs = self.list_sensors();
        let mut i: usize = 0;
        while i < macs.len()
            invariant
                self.wf(),
                macs@ == pre.sensors@,
                i <= macs@.len(),
                self.sensors@ == pre.sensors@,
                events_shrunk(pre, *self),
                maintenance_ticks(pre, *self, macs@.take(i as int), today, retain_days),
            decreases macs@.len() - i,
        {
            let mac = macs[i];
            let ghost mid0 = *self;
            proof {
                assert((self.sensors@[i as int])@ == mac@);
                assert(self.has_sensor(mac@));
            }
            let r = self.extract_report(&mac, today);
            let ghost mid1 = *self;
            proof {
                assert(mid1.sensors@ == mid0.sensors@);
                assert(mid1.events@ == mid0.events@);
            }
            let boundary = match r {
                Ok(b) => b,
                Err(b) => b,
            };
            match boundary.sub_days(retain_days) {
                Some(cutoff) => {
                    let n = self.purge_events_before(cutoff);
                    proof {
                        assert forall|m: Seq<u8>, k: int|
                            #[trigger] self.has_event(m, k) implies pre.has_event(m, k)
                            && self.event_at(m, k) == pre.event_at(m, k) by {
                            assert(mid1.has_event(m, k) && self.event_at(m, k) == mid1.event_at(
                                m,
                                k,
                            ));
                            assert(mid0.has_event(m, k) && mid1.event_at(m, k) == mid0.event_at(
                                m,
                                k,
                            ));
                        }
                        assert(purge_post(mid1, *self, cutoff, n as int));
                        assert(minus_days(tick_boundary(r), retain_days as nat) == Some(cutoff));
                        assert(sensor_tick(mid0, *self, mac, today, retain_days));
                    }
                },
                None => {
                    proof {
                        assert forall|m: Seq<u8>, k: int|
                            #[trigger] self.has_event(m, k) implies pre.has_event(m, k)
                            && self.event_at(m, k) == pre.event_at(m, k) by {
                            assert(mid0.has_event(m, k) && self.event_at(m, k) == mid0.event_at(
                                m,
                                k,
                            ));
                        }
                        assert(minus_days(tick_boundary(r), retain_days as nat) is None);
                        assert(*self == mid1);
                        assert(sensor_tick(mid0, *self, mac, today, retain_days));
                    }
                },
            }
            proof {
                lemma_maintenance_ticks_push(
                    pre,
                    mid0,
                    *self,
                    macs@.take(i as int),
                    mac,
                    today,
                    retain_days,
                );
                assert(macs@.take(i + 1) =~= macs@.take(i as int).push(mac));
            }
            i = i + 1;
        }
        proof {
            assert(macs@.take(macs@.len() as int) =~= macs@);
        }
    }
}

/// A sensor with at least one rollup row has a most recent
/// rolled-up day.
pub proof fn lemma_latest_rollup_day_exists(s: Seq<RollupRow>, mac: Seq<u8>)
    requires
        crate::store::rollups_valid(s),
        some_rollup_for(s, mac),
    ensures
        exists|d: Date| #[trigger] is_latest_rollup_day(s, mac, d),
    decreases s.len(),
{
    let n = s.len() as int;
    let t = s.drop_last();
    assert(crate::store::rollups_valid(t)) by {
        assert(forall|i: int| 0 <= i < t.len() ==> t[i] == s[i]);
    }
    if s[n - 1].mac@ == mac {
        if some_rollup_for(t, mac) {
            lemma_latest_rollup_day_exists(t, mac);
            let dt = choose|d: Date| #[trigger] is_latest_rollup_day(t, mac, d);
            if s[n - 1].day.key() >= dt.key() {
                let d2 = s[n - 1].day;
                assert(crate::store::rl_key_is(s[n - 1], mac, d2.key()));
                assert forall|i: int|
                    0 <= i < n && (#[trigger] s[i]).mac@ == mac implies s[i].day.key()
                    <= d2.key() by {
                    if i < n - 1 {
                        assert(t[i] == s[i]);
                        assert(t[i].day.key() <= dt.key());
                    }
                }
                assert(is_latest_rollup_day(s, mac, d2));
            } else {
                let j = choose|j: int|
                    0 <= j < t.len() && #[trigger] crate::store::rl_key_is(t[j], mac, dt.key());
                assert(t[j] == s[j]);
                assert(crate::store::rl_key_is(s[j], mac, dt.key()));
                assert forall|i: int|
                    0 <= i < n && (#[trigger] s[i]).mac@ == mac implies s[i].day.key()
                    <= dt.key() by {
                    if i < n - 1 {
                        assert(t[i] == s[i]);
                        assert(t[i].day.key() <= dt.key());
                    }
                }
                assert(is_latest_rollup_day(s, mac, dt));
            }
        } else {
            let d2 = s[n - 1].day;
            assert(crate::store::rl_key_is(s[n - 1], mac, d2.key()));
            assert forall|i: int|
                0 <= i < n && (#[trigger] s[i]).mac@ == mac implies s[i].day.key() <= d2.key() by {
                if i < n - 1 {
                    assert(t[i] == s[i]);
                    assert((t[i]).mac@ == mac);
                    assert(false);
                }
            }
            assert(is_latest_rollup_day(s, mac, d2));
        }
    } else {
        let w = choose|i: int| 0 <= i < n && (#[trigger] s[i]).mac@ == mac;
        assert(w != n - 1);
        assert(t[w] == s[w]);
        assert(some_rollup_for(t, mac));
        lemma_latest_rollup_day_exists(t, mac);
        let dt = choose|d: Date| #[trigger] is_latest_rollup_day(t, mac, d);
        let j = choose|j: int|
            0 <= j < t.len() && #[trigger] crate::store::rl_key_is(t[j], mac, dt.key());
        assert(t[j] == s[j]);
        assert(crate::store::rl_key_is(s[j], mac, dt.key()));
        assert forall|i: int|
            0 <= i < n && (#[trigger] s[i]).mac@ == mac implies s[i].day.key() <= dt.key() by {
            assert(i != n - 1);
            assert(t[i] == s[i]);
            assert(t[i].day.key() <= dt.key());
        }
        assert(is_latest_rollup_day(s, mac, dt));
    }
}

/// A sensor with at least one event row has an earliest event day.
pub proof fn lemma_earliest_event_day_exists(s: Seq<EventRow>, mac: Seq<u8>)
    requires
        crate::store::events_valid(s),
        some_event_for(s, mac),
    ensures
        exists|d: Date| #[trigger] is_earliest_event_day(s, mac, d),
    decreases s.len(),
{
    let n = s.len() as int;
    let t = s.drop_last();
    assert(crate::store::events_valid(t)) by {
        assert(forall|i: int| 0 <= i < t.len() ==> t[i] == s[i]);
    }
    if s[n - 1].mac@ == mac {
        if some_event_for(t, mac) {
            lemma_earliest_event_day_exists(t, mac);
            let dt = choose|d: Date| #[trigger] is_earliest_event_day(t, mac, d);
            let j = choose|j: int|
                0 <= j < t.len() && (#[trigger] t[j]).mac@ == mac && t[j].ts.date == dt;
            assert(t[j] == s[j]);
            if s[n - 1].ts.date.key() < dt.key() {
                let d2 = s[n - 1].ts.date;
                assert forall|i: int|
                    0 <= i < n && (#[trigger] s[i]).mac@ == mac implies s[i].ts.date.key()
                    >= d2.key() by {
                    if i < n - 1 {
                        assert(t[i] == s[i]);
                        assert(t[i].ts.date.key() >= dt.key());
                    }
                }
                assert(is_earliest_event_day(s, mac, d2));
            } else {
                assert forall|i: int|
                    0 <= i < n && (#[trigger] s[i]).mac@ == mac implies s[i].ts.date.key()
                    >= dt.key() by {
                    if i < n - 1 {
                        assert(t[i] == s[i]);
                        assert(t[i].ts.date.key() >= dt.key());
                    }
                }
                assert(is_earliest_event_day(s, mac, dt));
            }
        } else {
            let d2 = s[n - 1].ts.date;
            assert forall|i: int|
                0 <= i < n && (#[trigger] s[i]).mac@ == mac implies s[i].ts.date.key()
                >= d2.key() by {
                if i < n - 1 {
                    assert(t[i] == s[i]);
                    assert((t[i]).mac@ == mac);
                    assert(false);
                }
            }
            assert(is_earliest_event_day(s, mac, d2));
        }
    } else {
        let w = choose|i: int| 0 <= i < n && (#[trigger] s[i]).mac@ == mac;
        assert(w != n - 1);
        assert(t[w] == s[w]);
        assert(some_event_for(t, mac));
        lemma_earliest_event_day_exists(t, mac);
        let dt = choose|d: Date| #[trigger] is_earliest_event_day(t, mac, d);
        let j = choose|j: int|
            0 <= j < t.len() && (#[trigger] t[j]).mac@ == mac && t[j].ts.date == dt;
        assert(t[j] == s[j]);
        assert forall|i: int|
            0 <= i < n && (#[trigger] s[i]).mac@ == mac implies s[i].ts.date.key() >= dt.key() by {
            assert(i != n - 1);
            assert(t[i] == s[i]);
            assert(t[i].ts.date.key() >= dt.key());
        }
        assert(is_earliest_event_day(s, mac, dt));
    }
}

/// After a run that wrote every day of `[start, bound)`, the most
/// recent rolled-up day for the sensor is the day before `bound`.
proof fn lemma_new_latest(s0: Store, s1: Store, mac: Seq<u8>, start: Date, bound: Date)
    requires
        s0.wf(),
        s1.wf(),
        report_start_day(s0, mac, start),
        start.valid(),
        bound.valid(),
        start.key() < bound.key(),
        forall|d: Date|
            d.valid() && start.key() <= d.key() < bound.key() ==> #[trigger] rollup_day_written(
                s0.events@,
                s1.rollups@,
                mac,
                d,
            ),
        rollups_untouched_outside(s0, s1, mac, start.key(), bound.key()),
    ensures
        prev_of(bound).valid(),
        next_of(prev_of(bound)) == bound,
        is_latest_rollup_day(s1.rollups@, mac, prev_of(bound)),
        some_rollup_for(s1.rollups@, mac),
        report_start_day(s1, mac, bound),
{
    assert(start.key() >= first_day().key());
    assert(bound != first_day());
    crate::date::lemma_prev_of(bound);
    lemma_next_of_prev_of(bound);
    let lastd = prev_of(bound);
    assert(start.key() <= lastd.key());
    assert(rollup_day_written(s0.events@, s1.rollups@, mac, lastd));
    let lj = choose|j: int|
        0 <= j < s1.rollups@.len() && #[trigger] crate::store::rl_key_is(
            s1.rollups@[j],
            mac,
            lastd.key(),
        );
    assert(s1.rollups@[lj].day.valid() && s1.rollups@[lj].day.year < 9999);
    lemma_date_key_injective(s1.rollups@[lj].day, lastd);
    assert(lastd.year < 9999);
    assert forall|i: int|
        0 <= i < s1.rollups@.len() && (#[trigger] s1.rollups@[i]).mac@ == mac implies s1.rollups@[i].day.key()
        <= lastd.key() by {
        let row = s1.rollups@[i];
        let k = row.day.key();
        assert(row.day.valid());
        if start.key() <= k < bound.key() {
            assert(!(lastd.key() < row.day.key() < bound.key()));
        } else {
            assert(crate::store::rl_key_is(s1.rollups@[i], mac, k));
            assert(s1.has_rollup(mac, k));
            assert(s0.has_rollup(mac, k));
            let j0 = choose|j0: int|
                0 <= j0 < s0.rollups@.len() && #[trigger] crate::store::rl_key_is(
                    s0.rollups@[j0],
                    mac,
                    k,
                );
            assert(some_rollup_for(s0.rollups@, mac));
            let lr = choose|lr: Date|
                #[trigger] is_latest_rollup_day(s0.rollups@, mac, lr) && start == next_of(lr);
            assert(s0.rollups@[j0].day.key() <= lr.key());
            crate::date::lemma_next_of(lr);
            assert(k < start.key());
        }
    }
    assert(is_latest_rollup_day(s1.rollups@, mac, lastd));
    assert(some_rollup_for(s1.rollups@, mac)) by {
        assert((s1.rollups@[lj]).mac@ == mac);
    }
    assert(report_start_day(s1, mac, bound));
}

/// Idempotent rollup: with no new events in between, running the
/// engine a second time for the same sensor and the same current day
/// writes nothing and changes nothing: the store after the second run
/// equals the store after the first.
pub proof fn lemma_rollup_idempotent(
    s0: Store,
    s1: Store,
    s2: Store,
    mac: Seq<u8>,
    upto: Date,
    r1: Result<Date, Date>,
    r2: Result<Date, Date>,
)
    requires
        s0.wf(),
        upto.valid(),
        report_post(s0, s1, mac, upto, r1),
        report_post(s1, s2, mac, upto, r2),
    ensures
        s2.events@ == s1.events@,
        s2.rollups@ == s1.rollups@,
        s2.sensors@ == s1.sensors@,
{
    if report_no_data(s0, mac) {
        assert(report_no_data(s1, mac));
    } else {
        let start: Date;
        if some_rollup_for(s0.rollups@, mac) {
            lemma_latest_rollup_day_exists(s0.rollups@, mac);
            let lr = choose|d: Date| #[trigger] is_latest_rollup_day(s0.rollups@, mac, d);
            start = next_of(lr);
            crate::date::lemma_next_of(lr);
            assert(report_start_day(s0, mac, start));
        } else {
            lemma_earliest_event_day_exists(s0.events@, mac);
            let ed = choose|d: Date| #[trigger] is_earliest_event_day(s0.events@, mac, d);
            assert(ed != first_day());
            let w = choose|i: int|
                0 <= i < s0.events@.len() && (#[trigger] s0.events@[i]).mac@ == mac
                    && s0.events@[i].ts.date == ed;
            assert(ed.valid());
            start = ed;
            assert(report_start_day(s0, mac, start));
        }
        if start.key() >= upto.key() {
            assert(report_start_day(s1, mac, start));
        } else {
            match r1 {
                Ok(b) => {
                    lemma_new_latest(s0, s1, mac, start, upto);
                    assert(report_start_day(s1, mac, upto));
                    assert(!report_no_data(s1, mac)) by {
                        let lj = choose|j: int|
                            0 <= j < s1.rollups@.len() && #[trigger] crate::store::rl_key_is(
                                s1.rollups@[j],
                                mac,
                                prev_of(upto).key(),
                            );
                        assert((s1.rollups@[lj]).mac@ == mac);
                    }
                },
                Err(h) => {
                    if h.key() == start.key() {
                        lemma_date_key_injective(h, start);
                        assert(h == start);
                        assert(s1.rollups@ == s0.rollups@ && s1.sensors@ == s0.sensors@);
                        assert(report_start_day(s1, mac, start));
                        match r2 {
                            Ok(b2) => {
                                assert(rollup_day_written(s1.events@, s2.rollups@, mac, start));
                                assert(day_events(s1.events@, mac, start)
                                    == day_events(s0.events@, mac, start));
                                assert(false);
                            },
                            Err(h2) => {
                                if h2.key() > start.key() {
                                    assert(rollup_day_written(
                                        s1.events@,
                                        s2.rollups@,
                                        mac,
                                        start,
                                    ));
                                    assert(false);
                                } else {
                                    lemma_date_key_injective(h2, start);
                                    assert(h2 == start);
                                }
                            },
                        }
                    } else {
                        assert(h.key() > start.key());
                        lemma_new_latest(s0, s1, mac, start, h);
                        assert(report_start_day(s1, mac, h));
                        assert(!report_no_data(s1, mac)) by {
                            let lj = choose|j: int|
                                0 <= j < s1.rollups@.len() && #[trigger] crate::store::rl_key_is(
                                    s1.rollups@[j],
                                    mac,
                                    prev_of(h).key(),
                                );
                            assert((s1.rollups@[lj]).mac@ == mac);
                        }
                        assert(h.key() < upto.key());
                        match r2 {
                            Ok(b2) => {
                                assert(rollup_day_written(s1.events@, s2.rollups@, mac, h));
                                assert(day_events(s1.events@, mac, h) == day_events(
                                    s0.events@,
                                    mac,
                                    h,
                                ));
                                assert(false);
                            },
                            Err(h2) => {
                                if h2.key() > h.key() {
                                    assert(rollup_day_written(s1.events@, s2.rollups@, mac, h));
                                    assert(false);
                                } else {
                                    lemma_date_key_injective(h2, h);
                                    assert(h2 == h);
                                }
                            },
                        }
                    }
                },
            }
        }
    }
}

} // verus!
