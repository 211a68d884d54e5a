//! A device that counts its traffic and reports it: what it keeps, when it reports, and what it
//! does after a report went through or failed.

use crate::apply::{
    after_report, balances, is_delta, is_repeat, records_stay_balanced, repeated_report_counts_once,
    report_adds_to_its_device, When,
};
use crate::history::History;
use crate::pending::{
    batch_plus, batches_fit, id_or_new, id_stays_across_merges, PendingTrafficReport, ReportStamp,
};
use crate::report::{Report, TrafficReportRequest};
use crate::text::{
    as_u64, chars_of, decimal, drop_trailing, is_blank, opt_view, parse_u64, text_of, trim,
    unsigned_in, views, without_trailing, written_numbers_read_back, CharSet,
};
use crate::text_map::{lemma_sum_insert, map_sum, TextMap};
use crate::tracker::{
    consistent, empty_batch, round_fits, round_of, Batch, ClashAPIConnections, ClashConnection,
    ClientTrafficTracker, Seen,
};
use crate::classify::Classified;
use vstd::prelude::*;
use vstd::string::StringExecFns;

verus! {

// ---------------------------------------------------------------------------
// Settings
// ---------------------------------------------------------------------------

/// An interval in seconds, from a setting.
pub open spec fn interval_by(setting: Option<Seq<char>>, default: u64) -> u64 {
    match setting {
        Some(text) => match as_u64(unsigned_in(text)) {
            Some(n) => n,
            None => default,
        },
        None => default,
    }
}

/// An interval in seconds, from a setting.
pub fn interval_setting(setting: &Option<String>, default: u64) -> (r: u64)
    ensures
        r == interval_by(opt_view(*setting), default),
{
    match setting {
        Some(text) => {
            let v = chars_of(text.as_str());
            match parse_u64(v.as_slice()) {
                Some(n) => n,
                None => default,
            }
        },
        None => default,
    }
}

/// A path below a URL, which may end in slashes.
pub open spec fn url_below(base: Seq<char>, path: Seq<char>) -> Seq<char> {
    drop_trailing(base, CharSet::One('/')) + path
}

/// A path below a URL, which may end in slashes.
pub fn endpoint(base: &str, path: &str) -> (r: String)
    ensures
        r@ == url_below(base@, path@),
{
    let v = chars_of(base);
    let head = text_of(without_trailing(v.as_slice(), CharSet::One('/')));
    head.concat(path)
}

/// The token that a device sends along, from the setting: none where it is blank.
pub fn client_token(setting: Option<String>) -> (r: Option<String>)
    ensures
        opt_view(r) == match opt_view(setting) {
            Some(t) => if trim(t).len() > 0 {
                Some(t)
            } else {
                None
            },
            None => None,
        },
{
    match setting {
        Some(t) => if is_blank(t.as_str()) {
            None
        } else {
            Some(t)
        },
        None => None,
    }
}

// ---------------------------------------------------------------------------
// When to report
// ---------------------------------------------------------------------------

/// What is due.
#[derive(Clone, Copy, Debug, PartialEq, Eq, Structural)]
pub enum Due {
    Nothing,
    /// A report that says that the device is there.
    Heartbeat,
    /// A report of what was counted.
    Delta,
}

/// When reports are due. Moments are nanoseconds since the device began, intervals and delays are
/// seconds.
#[derive(Clone, Copy, Debug)]
pub struct ReportSchedule {
    pub report_interval: u64,
    pub heartbeat_interval: u64,
    pub next_report_due: u128,
    pub next_heartbeat_due: u128,
    pub retry_delay: u64,
}

/// A number of nanoseconds that a duration of whole seconds in 64 bits can hold.
pub open spec fn is_moment(now: u128) -> bool {
    now < 0x1_0000_0000_0000_0000 * 1_000_000_000
}

/// The moment `seconds` after `now`.
pub open spec fn moment_after(now: u128, seconds: int) -> int {
    now + seconds * 1_000_000_000
}

fn later(now: u128, seconds: u64) -> (r: u128)
    requires
        is_moment(now),
    ensures
        r == moment_after(now, seconds as int),
{
    now + seconds as u128 * 1_000_000_000
}

pub open spec fn min(a: int, b: int) -> int {
    if a < b {
        a
    } else {
        b
    }
}

impl ReportSchedule {
    /// The delay before a failed report is sent again stays between 30 seconds and 5 minutes.
    pub open spec fn wf(self) -> bool {
        30 <= self.retry_delay <= 300
    }

    /// The schedule of a device that begins at `now`.
    pub fn new(report_interval: u64, heartbeat_interval: u64, now: u128) -> (r: ReportSchedule)
        requires
            is_moment(now),
        ensures
            r.wf(),
            r.report_interval == report_interval,
            r.heartbeat_interval == heartbeat_interval,
            r.next_report_due == moment_after(now, report_interval as int),
            r.next_heartbeat_due == moment_after(now, heartbeat_interval as int),
            r.retry_delay == 30,
    {
        ReportSchedule {
            report_interval,
            heartbeat_interval,
            next_report_due: later(now, report_interval),
            next_heartbeat_due: later(now, heartbeat_interval),
            retry_delay: 30,
        }
    }

    /// What is due at `now`.
    pub open spec fn due_at(self, now: u128, nothing_counted: bool) -> Due {
        if now >= self.next_report_due && !nothing_counted {
            Due::Delta
        } else if now >= self.next_heartbeat_due {
            Due::Heartbeat
        } else {
            Due::Nothing
        }
    }

    /// What is due at `now`.
    pub fn due(&self, now: u128, nothing_counted: bool) -> (r: Due)
        ensures
            r == self.due_at(now, nothing_counted),
    {
        if now >= self.next_report_due && !nothing_counted {
            Due::Delta
        } else if now >= self.next_heartbeat_due {
            Due::Heartbeat
        } else {
            Due::Nothing
        }
    }

    /// After a report of the given kind went through: one of either kind says that the device is
    /// there.
    pub fn succeeded(&mut self, due: Due, now: u128)
        requires
            old(self).wf(),
            is_moment(now),
        ensures
            final(self).wf(),
            final(self).report_interval == old(self).report_interval,
            final(self).heartbeat_interval == old(self).heartbeat_interval,
            final(self).next_heartbeat_due == moment_after(
                now,
                old(self).heartbeat_interval as int,
            ),
            due == Due::Delta ==> final(self).next_report_due == moment_after(
                now,
                old(self).report_interval as int,
            ) && final(self).retry_delay == 30,
            due != Due::Delta ==> final(self).next_report_due == old(self).next_report_due
                && final(self).retry_delay == old(self).retry_delay,
    {
        if due == Due::Delta {
            self.next_report_due = later(now, self.report_interval);
            self.retry_delay = 30;
        }
        self.next_heartbeat_due = later(now, self.heartbeat_interval);
    }

    /// After a report of the given kind failed: a report of bytes is sent again after the delay,
    /// which doubles up to 5 minutes; a heartbeat after the delay, but no later than in a minute.
    pub fn failed(&mut self, due: Due, now: u128)
        requires
            old(self).wf(),
            is_moment(now),
        ensures
            final(self).wf(),
            final(self).report_interval == old(self).report_interval,
            final(self).heartbeat_interval == old(self).heartbeat_interval,
            due == Due::Delta ==> {
                &&& final(self).next_report_due == moment_after(now, old(self).retry_delay as int)
                &&& final(self).retry_delay == min(2 * old(self).retry_delay, 300)
                &&& final(self).next_heartbeat_due == old(self).next_heartbeat_due
            },
            due != Due::Delta ==> {
                &&& final(self).next_heartbeat_due == moment_after(
                    now,
                    min(old(self).retry_delay as int, 60),
                )
                &&& final(self).next_report_due == old(self).next_report_due
                &&& final(self).retry_delay == old(self).retry_delay
            },
    {
        if due == Due::Delta {
            self.next_report_due = later(now, self.retry_delay);
            let doubled: u64 = self.retry_delay * 2;
            self.retry_delay = if doubled < 300 {
                doubled
            } else {
                300
            };
        } else {
            let wait: u64 = if self.retry_delay < 60 {
                self.retry_delay
            } else {
                60
            };
            self.next_heartbeat_due = later(now, wait);
        }
    }
}

// ---------------------------------------------------------------------------
// The device
// ---------------------------------------------------------------------------

/// A device that counts its traffic and reports it.
pub struct ClientReporter {
    pub device_name: String,
    pub tracker: ClientTrafficTracker,
    pub pending: PendingTrafficReport,
    pub schedule: ReportSchedule,
}

/// The batch of a round is worth keeping: it has bytes.
pub open spec fn has_bytes(b: Batch) -> bool {
    b.download > 0 || b.upload > 0
}

/// Every number that comes up when the device looks at its connections is an `i64`.
pub open spec fn look_fits(
    known: Map<Seq<char>, Seen>,
    pending: Batch,
    conns: Seq<ClashConnection>,
    control: Seq<Seq<char>>,
    suffixes: Seq<Seq<char>>,
) -> bool {
    let batch = round_of(known, conns, control, suffixes).batch;
    round_fits(known, conns, control, suffixes) && (has_bytes(batch) ==> batches_fit(
        pending,
        batch,
    ))
}

impl ClientReporter {
    /// A device that begins at `now` with what it had not reported before.
    pub fn new(
        device_name: String,
        pending: PendingTrafficReport,
        report_interval: u64,
        heartbeat_interval: u64,
        now: u128,
    ) -> (r: ClientReporter)
        requires
            is_moment(now),
        ensures
            r.device_name == device_name,
            r.pending == pending,
            r.tracker.active_conns.map() == Map::<Seq<char>, Seen>::empty(),
            r.schedule.wf(),
            r.schedule.report_interval == report_interval,
            r.schedule.heartbeat_interval == heartbeat_interval,
            r.schedule.next_report_due == moment_after(now, report_interval as int),
            r.schedule.next_heartbeat_due == moment_after(now, heartbeat_interval as int),
            r.schedule.retry_delay == 30,
    {
        ClientReporter {
            device_name,
            tracker: ClientTrafficTracker::default(),
            pending,
            schedule: ReportSchedule::new(report_interval, heartbeat_interval, now),
        }
    }

    /// Whether every number that comes up when the device looks at the connections is an `i64`.
    pub fn can_observe(
        &self,
        data: &ClashAPIConnections,
        control_domains: &Vec<String>,
        direct_suffixes: &Vec<String>,
    ) -> (r: bool)
        ensures
            r == match data.connections {
                Some(conns) => look_fits(
                    self.tracker.active_conns.map(),
                    self.pending.batch(),
                    conns@,
                    views(control_domains@),
                    views(direct_suffixes@),
                ),
                None => true,
            },
    {
        match &data.connections {
            None => true,
            Some(conns) => match self.tracker.peek(conns, control_domains, direct_suffixes) {
                None => false,
                Some(batch) => !(batch.download_delta > 0 || batch.upload_delta > 0)
                    || self.pending.takes_batch(&batch),
            },
        }
    }

    /// Looks at the connections: counts what they have moved, and keeps it where it is anything.
    /// Says whether something was kept.
    pub fn observe(
        &mut self,
        data: &ClashAPIConnections,
        control_domains: &Vec<String>,
        direct_suffixes: &Vec<String>,
        stamp: ReportStamp,
    ) -> (r: bool)
        requires
            match data.connections {
                Some(conns) => look_fits(
                    old(self).tracker.active_conns.map(),
                    old(self).pending.batch(),
                    conns@,
                    views(control_domains@),
                    views(direct_suffixes@),
                ),
                None => true,
            },
        ensures
            final(self).device_name == old(self).device_name,
            final(self).schedule == old(self).schedule,
            match data.connections {
                Some(conns) => {
                    let round = round_of(
                        old(self).tracker.active_conns.map(),
                        conns@,
                        views(control_domains@),
                        views(direct_suffixes@),
                    );
                    &&& final(self).tracker.active_conns.map() == round.known
                    &&& r == has_bytes(round.batch)
                    &&& if r {
                        &&& final(self).pending.batch() == batch_plus(
                            old(self).pending.batch(),
                            round.batch,
                        )
                        &&& final(self).pending.report_id@ == id_or_new(
                            old(self).pending.report_id@,
                            old(self).device_name@,
                            stamp,
                        )
                    } else {
                        final(self).pending == old(self).pending
                    }
                },
                None => !r && final(self).pending == old(self).pending && final(self).tracker
                    == old(self).tracker,
            },
    {
        match &data.connections {
            None => false,
            Some(conns) => {
                let batch = self.tracker.calculate_proxy_deltas_with_control_domains(
                    conns,
                    control_domains,
                    direct_suffixes,
                );
                if batch.download_delta > 0 || batch.upload_delta > 0 {
                    self.pending.merge_batch(batch, self.device_name.as_str(), stamp);
                    true
                } else {
                    false
                }
            },
        }
    }

    /// Looks at the connections, if every number that comes up is an `i64`; else nothing changes.
    pub fn try_observe(
        &mut self,
        data: &ClashAPIConnections,
        control_domains: &Vec<String>,
        direct_suffixes: &Vec<String>,
        stamp: ReportStamp,
    ) -> (r: Option<bool>)
        ensures
            final(self).device_name == old(self).device_name,
            final(self).schedule == old(self).schedule,
            match (r, data.connections) {
                (Some(kept), Some(conns)) => {
                    let known = old(self).tracker.active_conns.map();
                    let pending = old(self).pending.batch();
                    let control = views(control_domains@);
                    let suffixes = views(direct_suffixes@);
                    let round = round_of(known, conns@, control, suffixes);
                    &&& look_fits(known, pending, conns@, control, suffixes)
                    &&& final(self).tracker.active_conns.map() == round.known
                    &&& kept == has_bytes(round.batch)
                    &&& if kept {
                        &&& final(self).pending.batch() == batch_plus(pending, round.batch)
                        &&& final(self).pending.report_id@ == id_or_new(
                            old(self).pending.report_id@,
                            old(self).device_name@,
                            stamp,
                        )
                    } else {
                        final(self).pending == old(self).pending
                    }
                },
                (Some(kept), None) => !kept && *final(self) == *old(self),
                (None, Some(conns)) => !look_fits(
                    old(self).tracker.active_conns.map(),
                    old(self).pending.batch(),
                    conns@,
                    views(control_domains@),
                    views(direct_suffixes@),
                ) && *final(self) == *old(self),
                (None, None) => false,
            },
    {
        if self.can_observe(data, control_domains, direct_suffixes) {
            Some(self.observe(data, control_domains, direct_suffixes, stamp))
        } else {
            None
        }
    }

    /// What is due at `now`.
    pub fn due(&self, now: u128) -> (r: Due)
        ensures
            r == self.schedule.due_at(now, self.pending.batch() == empty_batch()),
    {
        self.schedule.due(now, self.pending.is_empty())
    }

    /// The report that is due: what was counted, under an id that stays with it; or that the device
    /// is there.
    pub fn compose(&mut self, due: Due, node_ip: String, stamp: ReportStamp) -> (r:
        TrafficReportRequest)
        ensures
            final(self).device_name == old(self).device_name,
            final(self).schedule == old(self).schedule,
            final(self).tracker == old(self).tracker,
            r.report() == composed(
                due,
                old(self).device_name@,
                old(self).pending.report_id@,
                old(self).pending.batch(),
                node_ip@,
                stamp,
            ),
            final(self).pending.batch() == old(self).pending.batch(),
            final(self).pending.report_id@ == if due == Due::Delta {
                r.report().id
            } else {
                old(self).pending.report_id@
            },
            is_delta(r.report()) == (due == Due::Delta),
    {
        if due == Due::Delta {
            let report_id = self.pending.ensure_report_id(self.device_name.as_str(), stamp);
            let r = TrafficReportRequest {
                report_id,
                device_name: self.device_name.clone(),
                download_delta: self.pending.download_delta,
                upload_delta: self.pending.upload_delta,
                current_node_ip: node_ip,
                domain_deltas: self.pending.domain_deltas.duplicate(),
                abnormal_domain_deltas: self.pending.abnormal_domain_deltas.duplicate(),
                report_kind: "delta".to_owned(),
            };
            r
        } else {
            let r = TrafficReportRequest {
                report_id: String::new(),
                device_name: self.device_name.clone(),
                download_delta: 0,
                upload_delta: 0,
                current_node_ip: node_ip,
                domain_deltas: TextMap::new(),
                abnormal_domain_deltas: TextMap::new(),
                report_kind: "heartbeat".to_owned(),
            };
            proof {
                reveal_strlit("heartbeat");
                reveal_strlit("delta");
                assert("heartbeat"@.len() != "delta"@.len());
            }
            r
        }
    }

    /// After a report of the given kind went through or failed: what was reported is forgotten
    /// once it went through, and kept until then. Says whether something was forgotten.
    pub fn settle(&mut self, due: Due, success: bool, now: u128) -> (r: bool)
        requires
            old(self).schedule.wf(),
            is_moment(now),
        ensures
            final(self).device_name == old(self).device_name,
            final(self).tracker == old(self).tracker,
            final(self).schedule.wf(),
            final(self).schedule.report_interval == old(self).schedule.report_interval,
            final(self).schedule.heartbeat_interval == old(self).schedule.heartbeat_interval,
            r == (success && due == Due::Delta),
            if r {
                final(self).pending.batch() == empty_batch() && final(self).pending.report_id@
                    == Seq::<char>::empty()
            } else {
                final(self).pending == old(self).pending
            },
            settled(old(self).schedule, final(self).schedule, due, success, now),
    {
        if success {
            self.schedule.succeeded(due, now);
            if due == Due::Delta {
                self.pending = PendingTrafficReport::default();
                return true;
            }
        } else {
            self.schedule.failed(due, now);
        }
        false
    }
}

/// How the schedule changes after a report of the given kind.
pub open spec fn settled(
    before: ReportSchedule,
    after: ReportSchedule,
    due: Due,
    success: bool,
    now: u128,
) -> bool {
    if success {
        &&& after.next_heartbeat_due == moment_after(now, before.heartbeat_interval as int)
        &&& if due == Due::Delta {
            after.next_report_due == moment_after(now, before.report_interval as int)
                && after.retry_delay == 30
        } else {
            after.next_report_due == before.next_report_due && after.retry_delay
                == before.retry_delay
        }
    } else if due == Due::Delta {
        &&& after.next_report_due == moment_after(now, before.retry_delay as int)
        &&& after.retry_delay == min(2 * before.retry_delay, 300)
        &&& after.next_heartbeat_due == before.next_heartbeat_due
    } else {
        &&& after.next_heartbeat_due == moment_after(now, min(before.retry_delay as int, 60))
        &&& after.next_report_due == before.next_report_due
        &&& after.retry_delay == before.retry_delay
    }
}

/// The report that is due.
pub open spec fn composed(
    due: Due,
    device: Seq<char>,
    id: Seq<char>,
    batch: Batch,
    node: Seq<char>,
    stamp: ReportStamp,
) -> Report {
    if due == Due::Delta {
        Report {
            id: id_or_new(id, device, stamp),
            device,
            download: batch.download,
            upload: batch.upload,
            node,
            domains: batch.domains,
            abnormal: batch.abnormal,
            kind: "delta"@,
        }
    } else {
        Report {
            id: Seq::empty(),
            device,
            download: 0,
            upload: 0,
            node,
            domains: Map::empty(),
            abnormal: Map::empty(),
            kind: "heartbeat"@,
        }
    }
}

/// A report that failed is due again only after the delay; as long as nothing is due no report is
/// sent.
pub proof fn failed_report_waits(before: ReportSchedule, after: ReportSchedule, now: u128, t: u128)
    requires
        before.wf(),
        settled(before, after, Due::Delta, false, now),
        t < now + 30_000_000_000,
    ensures
        after.due_at(t, false) != Due::Delta,
{
}

/// What a device reports adds up, so that the records of the server stay balanced: a report of a
/// consistent batch, or that the device is there, keeps them so.
pub proof fn reports_keep_records_balanced(
    due: Due,
    device: Seq<char>,
    id: Seq<char>,
    batch: Batch,
    node: Seq<char>,
    stamp: ReportStamp,
    suffixes: Seq<Seq<char>>,
    h: History,
    now: When,
    server_suffixes: Seq<Seq<char>>,
)
    requires
        consistent(batch, suffixes),
        balances(h),
    ensures
        balances(
            after_report(
                h,
                composed(due, device, id, batch, node, stamp),
                now,
                server_suffixes,
            ),
        ),
{
    assert(batch.abnormal.dom().subset_of(batch.domains.dom())) by {
        assert forall|k: Seq<char>| batch.abnormal.dom().contains(
            k,
        ) implies #[trigger] batch.domains.dom().contains(k) by {
            assert(batch.abnormal.contains_key(k));
        }
    }
    vstd::set_lib::lemma_len_subset(batch.abnormal.dom(), batch.domains.dom());
    records_stay_balanced(
        h,
        composed(due, device, id, batch, node, stamp),
        now,
        server_suffixes,
    );
}

/// A report that was sent and then sent again, because its answer was lost, counts once: the
/// second one bears the same id, whatever was counted in between.
pub proof fn resent_report_counts_once(
    device: Seq<char>,
    id: Seq<char>,
    first: Batch,
    second: Batch,
    node: Seq<char>,
    stamp: ReportStamp,
    later: ReportStamp,
    h: History,
    now: When,
    suffixes: Seq<Seq<char>>,
)
    ensures
        ({
            let a = composed(Due::Delta, device, id, first, node, stamp);
            let b = composed(Due::Delta, device, a.id, second, node, later);
            let once = after_report(h, a, now, suffixes);
            a.id == b.id && is_repeat(once, b)
        }),
{
    let a = composed(Due::Delta, device, id, first, node, stamp);
    id_stays_across_merges(id, device, stamp, device, later);
    repeated_report_counts_once(
        h,
        a,
        now,
        suffixes,
        now,
        suffixes,
    );
}

// ---------------------------------------------------------------------------
// What the schedule and the reports come to
// ---------------------------------------------------------------------------

/// A delta is due once its time has come, if something was counted; else a heartbeat once its time
/// has come; else nothing.
pub proof fn what_is_due_goes_by_the_time(s: ReportSchedule, now: u128, nothing_counted: bool)
    ensures
        s.due_at(now, nothing_counted) == Due::Delta <==> !nothing_counted && s.next_report_due
            <= now,
        s.due_at(now, nothing_counted) == Due::Heartbeat <==> (nothing_counted || now
            < s.next_report_due) && s.next_heartbeat_due <= now,
        s.due_at(now, nothing_counted) == Due::Nothing <==> (nothing_counted || now
            < s.next_report_due) && now < s.next_heartbeat_due,
{
}

/// After a delta that went through, the next one is due after the interval of reports, the next
/// heartbeat after the interval of heartbeats, and the delay of a retry is short again.
pub proof fn success_begins_the_intervals_anew(
    before: ReportSchedule,
    after: ReportSchedule,
    due: Due,
    now: u128,
)
    requires
        settled(before, after, due, true, now),
    ensures
        after.next_heartbeat_due == now + before.heartbeat_interval * 1_000_000_000,
        due == Due::Delta ==> after.next_report_due == now + before.report_interval
            * 1_000_000_000 && after.retry_delay == 30,
        due != Due::Delta ==> after.next_report_due == before.next_report_due && after.retry_delay
            == before.retry_delay,
{
}

/// After a delta that failed, it is due again after the delay, and the delay doubles up to five
/// minutes. After a heartbeat that failed, it is due again after the delay or a minute, whichever is
/// shorter, and nothing else changes.
pub proof fn failures_wait_longer_and_longer(
    before: ReportSchedule,
    after: ReportSchedule,
    due: Due,
    now: u128,
)
    requires
        settled(before, after, due, false, now),
    ensures
        due == Due::Delta ==> {
            &&& after.next_report_due == now + before.retry_delay * 1_000_000_000
            &&& 2 * before.retry_delay <= 300 ==> after.retry_delay == 2 * before.retry_delay
            &&& 2 * before.retry_delay > 300 ==> after.retry_delay == 300
            &&& after.next_heartbeat_due == before.next_heartbeat_due
        },
        due != Due::Delta ==> {
            &&& before.retry_delay <= 60 ==> after.next_heartbeat_due == now + before.retry_delay
                * 1_000_000_000
            &&& before.retry_delay > 60 ==> after.next_heartbeat_due == now + 60_000_000_000
            &&& after.next_report_due == before.next_report_due
            &&& after.retry_delay == before.retry_delay
        },
{
}

/// A delta reports all that is pending and nothing else, under the id of what is pending; a heartbeat
/// reports no bytes, and bears no id. Either names the device and the node.
pub proof fn reports_carry_what_is_pending(
    due: Due,
    device: Seq<char>,
    id: Seq<char>,
    batch: Batch,
    node: Seq<char>,
    stamp: ReportStamp,
)
    ensures
        ({
            let p = composed(due, device, id, batch, node, stamp);
            &&& p.device == device
            &&& p.node == node
            &&& due == Due::Delta ==> {
                &&& p.kind == "delta"@
                &&& p.download == batch.download
                &&& p.upload == batch.upload
                &&& p.domains == batch.domains
                &&& p.abnormal == batch.abnormal
                &&& trim(id).len() > 0 ==> p.id == id
                &&& trim(p.id).len() > 0
            }
            &&& due != Due::Delta ==> {
                &&& p.kind == "heartbeat"@
                &&& p.download == 0
                &&& p.upload == 0
                &&& p.domains == Map::<Seq<char>, int>::empty()
                &&& p.abnormal == Map::<Seq<char>, Classified>::empty()
                &&& p.id.len() == 0
            }
        }),
{
    id_stays_across_merges(id, device, stamp, device, stamp);
}

/// What a device counted reaches the server in full: a delta that the server had not seen adds to the
/// device the download and the upload that were pending.
pub proof fn counted_bytes_reach_the_server(
    device: Seq<char>,
    id: Seq<char>,
    batch: Batch,
    node: Seq<char>,
    stamp: ReportStamp,
    h: History,
    now: When,
    suffixes: Seq<Seq<char>>,
)
    requires
        h.devices.contains_key(device),
        !is_repeat(h, composed(Due::Delta, device, id, batch, node, stamp)),
    ensures
        ({
            let p = composed(Due::Delta, device, id, batch, node, stamp);
            let after = after_report(h, p, now, suffixes);
            &&& after.devices[device].download == h.devices[device].download + batch.download
            &&& after.devices[device].upload == h.devices[device].upload + batch.upload
            &&& after.devices[device].node == node
            &&& after.devices[device].last_seen == now.timestamp
        }),
{
    let p = composed(Due::Delta, device, id, batch, node, stamp);
    report_adds_to_its_device(h, p, now, suffixes, device);
}

/// A setting that is a number gives that interval; without a setting, and with one that is no number,
/// the default stands.
pub proof fn intervals_are_read_from_settings(n: u64, other: Seq<char>, default: u64)
    requires
        unsigned_in(other) is None,
    ensures
        interval_by(Some(decimal(n as nat)), default) == n,
        interval_by(Some(other), default) == default,
        interval_by(None, default) == default,
{
    written_numbers_read_back(n as nat);
}

/// A path is put directly after the base, however many slashes the base ends in.
pub proof fn slashes_do_not_change_urls(base: Seq<char>, path: Seq<char>)
    requires
        base.len() > 0,
        base.last() != '/',
    ensures
        url_below(base, path) == base + path,
        url_below(base + "/"@, path) == base + path,
        url_below(base + "//"@, path) == base + path,
{
    reveal_strlit("/");
    reveal_strlit("//");
    reveal_with_fuel(drop_trailing, 3);
    let a = base + "/"@;
    let b = base + "//"@;
    assert(a.drop_last() =~= base);
    assert(b.drop_last() =~= a);
}

/// A round is kept exactly where it counted bytes of some host.
pub proof fn rounds_with_bytes_are_kept(b: Batch, suffixes: Seq<Seq<char>>)
    requires
        consistent(b, suffixes),
    ensures
        has_bytes(b) <==> exists|k: Seq<char>| #[trigger] b.domains.contains_key(k),
        has_bytes(b) <==> b.download + b.upload > 0,
{
    if !(exists|k: Seq<char>| #[trigger] b.domains.contains_key(k)) {
        assert(b.domains =~= Map::<Seq<char>, int>::empty());
    } else {
        let k = choose|k: Seq<char>| #[trigger] b.domains.contains_key(k);
        lemma_positive_sum(b.domains, k);
    }
}

/// The sum of counts above zero is above zero.
proof fn lemma_positive_sum(m: Map<Seq<char>, int>, k: Seq<char>)
    requires
        m.dom().finite(),
        m.contains_key(k),
        forall|h: Seq<char>| #[trigger] m.contains_key(h) ==> m[h] > 0,
    ensures
        map_sum(m) > 0,
    decreases m.dom().len(),
{
    let rest = m.remove(k);
    assert(rest.insert(k, m[k]) =~= m);
    lemma_sum_insert(rest, k, m[k]);
    assert forall|h: Seq<char>| #[trigger] rest.contains_key(h) implies rest[h] > 0 by {
        assert(m.contains_key(h));
    }
    if exists|h: Seq<char>| #[trigger] rest.contains_key(h) {
        let h = choose|h: Seq<char>| #[trigger] rest.contains_key(h);
        lemma_positive_sum(rest, h);
    } else {
        assert(rest =~= Map::<Seq<char>, int>::empty());
    }
}

/// A look at the connections fits exactly where the round can be counted and, if it counted bytes,
/// they can be added to what is pending.
pub proof fn looks_fit_where_their_sums_do(
    known: Map<Seq<char>, Seen>,
    pending: Batch,
    conns: Seq<ClashConnection>,
    control: Seq<Seq<char>>,
    suffixes: Seq<Seq<char>>,
)
    ensures
        ({
            let batch = round_of(known, conns, control, suffixes).batch;
            look_fits(known, pending, conns, control, suffixes) <==> round_fits(
                known,
                conns,
                control,
                suffixes,
            ) && (batch.download > 0 || batch.upload > 0 ==> batches_fit(pending, batch))
        }),
{
}

} // verus!
