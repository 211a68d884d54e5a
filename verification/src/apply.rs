//! What a report adds to the history.

use crate::classify::{
    bytes_are_merged_by_domain, bytes_of, classified_fit, classified_grows_by,
    classify_proxy_domain_with_suffixes, merge_classified_delta, merged, plus_classified,
    verdict_on, Classified, ClassifiedDomainDelta,
};
use crate::clock::{date_of, day_of, week_index, week_of, LocalTime};
use crate::foreign::{iso_week_in, parse_day, parsed_day_in};
use crate::history::{
    empty_device, empty_node, Device, DeviceHistory, History, NasTrafficHistory, NodeHistory,
    NodeTotals,
};
use crate::hosts::{node_key, normalize_node_key};
use crate::report::{is_acceptable, Report, TrafficReportRequest};
use crate::text::{is_blank, list_has, same_text, trim, views};
use crate::text_map::{
    count_of, counts_are_added_by_key, fits, grows_by, lemma_map_of, lemma_map_of_take,
    lemma_sum_insert, lemma_sum_plus, map_of, map_sum, plus, positive, stays_under, sum_fits,
    sums_fit, Model, TextMap,
};
use vstd::prelude::*;

verus! {

// ---------------------------------------------------------------------------
// Parts of a report
// ---------------------------------------------------------------------------

/// The report carries bytes, or says that it does.
pub open spec fn is_delta(p: Report) -> bool {
    ||| p.kind == "delta"@
    ||| p.download > 0
    ||| p.upload > 0
    ||| p.domains != Map::<Seq<char>, int>::empty()
    ||| p.abnormal != Map::<Seq<char>, Classified>::empty()
}

/// Whether the report carries bytes, or says that it does.
pub fn is_delta_report(payload: &TrafficReportRequest) -> (r: bool)
    ensures
        r == is_delta(payload.report()),
{
    same_text(payload.report_kind.as_str(), "delta") || payload.download_delta > 0
        || payload.upload_delta > 0 || !payload.domain_deltas.is_empty()
        || !payload.abnormal_domain_deltas.is_empty()
}

/// The bytes of the domains that should go direct, with their classification.
pub open spec fn direct_part(d: Map<Seq<char>, int>, suffixes: Seq<Seq<char>>) -> Map<
    Seq<char>,
    Classified,
> {
    Map::new(
        |k: Seq<char>| d.contains_key(k) && d[k] > 0 && !verdict_on(k, suffixes).should_proxy,
        |k: Seq<char>| Classified { bytes: d[k], verdict: verdict_on(k, suffixes) },
    )
}

/// The classified bytes of the domains that are not among `domains`, without their classification.
pub open spec fn bytes_beside(
    abnormal: Map<Seq<char>, Classified>,
    domains: Map<Seq<char>, int>,
) -> Map<Seq<char>, int> {
    Map::new(
        |k: Seq<char>| abnormal.contains_key(k) && !domains.contains_key(k),
        |k: Seq<char>| abnormal[k].bytes,
    )
}

/// The bytes that should have gone direct, by domain. The domains are classified anew; the
/// classified bytes of a report count only for domains that it does not list otherwise.
pub open spec fn effective_abnormal(
    domains: Map<Seq<char>, int>,
    abnormal: Map<Seq<char>, Classified>,
    suffixes: Seq<Seq<char>>,
) -> Map<Seq<char>, Classified> {
    direct_part(domains.union_prefer_right(bytes_beside(abnormal, domains)), suffixes)
}

proof fn lemma_direct_part_insert(
    d: Map<Seq<char>, int>,
    k: Seq<char>,
    v: int,
    suffixes: Seq<Seq<char>>,
)
    requires
        !d.contains_key(k),
    ensures
        direct_part(d.insert(k, v), suffixes) == if v > 0 && !verdict_on(
            k,
            suffixes,
        ).should_proxy {
            merged(direct_part(d, suffixes), k, v, verdict_on(k, suffixes))
        } else {
            direct_part(d, suffixes)
        },
        !direct_part(d, suffixes).contains_key(k),
{
    let after = direct_part(d.insert(k, v), suffixes);
    if v > 0 && !verdict_on(k, suffixes).should_proxy {
        assert(after =~= merged(direct_part(d, suffixes), k, v, verdict_on(k, suffixes)));
    } else {
        assert(after =~= direct_part(d, suffixes));
    }
}

/// The bytes of a report that should have gone direct, by domain.
pub fn effective_abnormal_deltas(
    payload: &TrafficReportRequest,
    direct_suffixes: &Vec<String>,
) -> (r: TextMap<ClassifiedDomainDelta>)
    ensures
        r.map() == effective_abnormal(
            payload.report().domains,
            payload.report().abnormal,
            views(direct_suffixes@),
        ),
{
    let mut out: TextMap<ClassifiedDomainDelta> = TextMap::new();
    let d = &payload.domain_deltas;
    let a = &payload.abnormal_domain_deltas;
    let ghost suffixes = views(direct_suffixes@);
    let n: usize = d.len();
    proof {
        lemma_map_of(d.keys(), d.values());
        assert(d.keys().take(0) =~= Seq::<Seq<char>>::empty());
        assert(direct_part(Map::empty(), suffixes) =~= Map::<Seq<char>, Classified>::empty());
    }
    for i in 0..n
        invariant
            n == d.keys().len(),
            d.wf(),
            suffixes == views(direct_suffixes@),
            out.map() == direct_part(
                map_of(d.keys().take(i as int), d.values().take(i as int)),
                suffixes,
            ),
    {
        let domain = d.key_at(i);
        let bytes: i64 = *d.value_at(i);
        proof {
            lemma_map_of_take(d.keys(), d.values(), i as int);
            lemma_direct_part_insert(
                map_of(d.keys().take(i as int), d.values().take(i as int)),
                domain@,
                bytes as int,
                suffixes,
            );
        }
        let classification = classify_proxy_domain_with_suffixes(domain.as_str(), direct_suffixes);
        if !classification.should_proxy && bytes > 0 {
            merge_classified_delta(&mut out, domain.as_str(), bytes, &classification);
        }
    }
    let ghost base = d.map();
    let m: usize = a.len();
    proof {
        assert(d.keys().take(n as int) =~= d.keys());
        assert(d.values().take(n as int) =~= d.values());
        assert(a.keys().take(0) =~= Seq::<Seq<char>>::empty());
        assert(base.union_prefer_right(
            bytes_beside(Map::<Seq<char>, Classified>::empty(), base),
        ) =~= base);
    }
    for i in 0..m
        invariant
            m == a.keys().len(),
            a.wf(),
            base == d.map(),
            suffixes == views(direct_suffixes@),
            *d == payload.domain_deltas,
            out.map() == direct_part(
                base.union_prefer_right(
                    bytes_beside(
                        map_of(a.keys().take(i as int), a.values().take(i as int)),
                        base,
                    ),
                ),
                suffixes,
            ),
    {
        let domain = a.key_at(i);
        let detail = a.value_at(i);
        let ghost part = map_of(a.keys().take(i as int), a.values().take(i as int));
        let ghost before = base.union_prefer_right(bytes_beside(part, base));
        proof {
            lemma_map_of_take(a.keys(), a.values(), i as int);
            let after = base.union_prefer_right(
                bytes_beside(part.insert(domain@, detail.model()), base),
            );
            if base.contains_key(domain@) {
                assert(after =~= before);
            } else {
                assert(after =~= before.insert(domain@, detail.bytes as int));
                lemma_direct_part_insert(before, domain@, detail.bytes as int, suffixes);
            }
        }
        if detail.bytes > 0 && !d.contains_key(domain.as_str()) {
            let classification = classify_proxy_domain_with_suffixes(
                domain.as_str(),
                direct_suffixes,
            );
            if !classification.should_proxy {
                merge_classified_delta(&mut out, domain.as_str(), detail.bytes, &classification);
            }
        }
    }
    assert(a.keys().take(m as int) =~= a.keys());
    assert(a.values().take(m as int) =~= a.values());
    out
}

/// The ids after one more: a blank one and one that is there are left out, and no more than the
/// last 500 stay.
pub open spec fn remember(ids: Seq<Seq<char>>, id: Seq<char>) -> Seq<Seq<char>> {
    if trim(id).len() == 0 || ids.contains(id) {
        ids
    } else {
        let all = ids.push(id);
        if all.len() > 500 {
            all.skip(all.len() - 500)
        } else {
            all
        }
    }
}

/// Remembers the id of a report that was applied.
pub fn remember_processed_report_id(dev: &mut DeviceHistory, report_id: &str)
    ensures
        final(dev).model() == (Device {
            ids: remember(old(dev).model().ids, report_id@),
            ..old(dev).model()
        }),
{
    if is_blank(report_id) || list_has(&dev.processed_report_ids, report_id) {
        assert(dev.model() =~= (Device {
            ids: remember(old(dev).model().ids, report_id@),
            ..old(dev).model()
        }));
        return;
    }
    let mut ids: Vec<String> = Vec::new();
    std::mem::swap(&mut ids, &mut dev.processed_report_ids);
    let ghost before = views(ids@);
    ids.push(report_id.to_owned());
    assert(views(ids@) =~= before.push(report_id@));
    if ids.len() > 500 {
        let ghost all = views(ids@);
        let cut: usize = ids.len() - 500;
        let rest = ids.split_off(cut);
        assert(views(rest@) =~= all.skip(cut as int));
        ids = rest;
    }
    dev.processed_report_ids = ids;
    assert(dev.model() =~= (Device {
        ids: remember(old(dev).model().ids, report_id@),
        ..old(dev).model()
    }));
}

/// The bytes of a classified map, without the classification.
pub open spec fn bare_bytes(m: Map<Seq<char>, Classified>) -> Map<Seq<char>, int> {
    m.map_values(|c: Classified| c.bytes)
}

/// The sum of the bytes of a classified map.
pub open spec fn classified_sum(m: Map<Seq<char>, Classified>) -> int {
    map_sum(bare_bytes(m))
}

proof fn lemma_map_of_finite<M>(keys: Seq<Seq<char>>, values: Seq<M>)
    ensures
        map_of(keys, values).dom().finite(),
    decreases keys.len(),
{
    if keys.len() > 0 {
        lemma_map_of_finite(keys.drop_last(), values.drop_last());
    }
}

proof fn lemma_classified_sum_insert(m: Map<Seq<char>, Classified>, k: Seq<char>, v: Classified)
    requires
        m.dom().finite(),
        !m.contains_key(k),
    ensures
        classified_sum(m.insert(k, v)) == classified_sum(m) + v.bytes,
{
    assert(bare_bytes(m).dom() =~= m.dom());
    assert(bare_bytes(m.insert(k, v)) =~= bare_bytes(m).insert(k, v.bytes));
    lemma_sum_insert(bare_bytes(m), k, v.bytes);
}

proof fn lemma_classified_sum_grows(
    keys: Seq<Seq<char>>,
    values: Seq<Classified>,
    i: int,
)
    requires
        keys.len() == values.len(),
        keys.no_duplicates(),
        0 <= i <= keys.len(),
        forall|j: int| 0 <= j < values.len() ==> (#[trigger] values[j]).bytes >= 0,
    ensures
        classified_sum(map_of(keys.take(i), values.take(i))) <= classified_sum(
            map_of(keys, values),
        ),
    decreases keys.len() - i,
{
    if i == keys.len() {
        assert(keys.take(i) =~= keys);
        assert(values.take(i) =~= values);
    } else {
        lemma_classified_sum_grows(keys, values, i + 1);
        lemma_map_of_take(keys, values, i);
        lemma_map_of_finite(keys.take(i), values.take(i));
        lemma_classified_sum_insert(map_of(keys.take(i), values.take(i)), keys[i], values[i]);
    }
}

/// `start` and all bytes of `d`, if the sum is an `i64`.
fn with_all_bytes(start: i64, d: &TextMap<ClassifiedDomainDelta>) -> (r: Option<i64>)
    requires
        forall|k: Seq<char>| #[trigger] d.map().contains_key(k) ==> d.map()[k].bytes >= 0,
    ensures
        match r {
            Some(v) => v == start + classified_sum(d.map()),
            None => !fits(start + classified_sum(d.map())),
        },
{
    let n: usize = d.len();
    let mut t: i64 = start;
    proof {
        lemma_map_of(d.keys(), d.values());
        assert(d.keys().take(0) =~= Seq::<Seq<char>>::empty());
        assert(bare_bytes(Map::empty()) =~= Map::<Seq<char>, int>::empty());
        assert forall|j: int| 0 <= j < d.values().len() implies (
        #[trigger] d.values()[j]).bytes >= 0 by {
            assert(d.map().contains_key(d.keys()[j]));
        }
    }
    for i in 0..n
        invariant
            n == d.keys().len(),
            d.wf(),
            forall|j: int| 0 <= j < d.values().len() ==> (#[trigger] d.values()[j]).bytes >= 0,
            t == start + classified_sum(
                map_of(d.keys().take(i as int), d.values().take(i as int)),
            ),
    {
        let v = d.value_at(i);
        proof {
            lemma_map_of_take(d.keys(), d.values(), i as int);
            lemma_map_of_finite(d.keys().take(i as int), d.values().take(i as int));
            lemma_classified_sum_insert(
                map_of(d.keys().take(i as int), d.values().take(i as int)),
                d.keys()[i as int],
                d.values()[i as int],
            );
            lemma_classified_sum_grows(d.keys(), d.values(), i as int + 1);
        }
        match t.checked_add(v.bytes) {
            Some(next) => {
                t = next;
            },
            None => {
                return None;
            },
        }
    }
    assert(d.keys().take(n as int) =~= d.keys());
    assert(d.values().take(n as int) =~= d.values());
    Some(t)
}

// ---------------------------------------------------------------------------
// The whole report
// ---------------------------------------------------------------------------

/// When a report comes in, or when the history is looked at: seconds since 1970, and on the local
/// clock the date, the number of the ISO week in its year, and the day, counted from 1 January of
/// the year 1.
pub struct ReportTime {
    pub timestamp: i64,
    pub date: String,
    pub week: i32,
    pub day: i64,
}

/// What a time says.
pub struct When {
    pub timestamp: int,
    pub date: Seq<char>,
    pub week: int,
    pub day: int,
}

impl When {
    /// The date names the day.
    pub open spec fn dated(self) -> bool {
        parsed_day_in(self.date, "%Y-%m-%d"@) == Some(self.day as i32) && self.day as i32
            == self.day
    }
}

impl ReportTime {
    pub open spec fn when(self) -> When {
        When {
            timestamp: self.timestamp as int,
            date: self.date@,
            week: self.week as int,
            day: self.day as int,
        }
    }

    /// The time at the given moment.
    pub fn at(moment: &LocalTime) -> (r: Option<ReportTime>)
        ensures
            match r {
                Some(t) => {
                    &&& t.timestamp == moment.timestamp
                    &&& date_of(*moment) == Some(t.date@)
                    &&& 1 <= t.week <= 53
                    &&& iso_week_in(moment.timestamp, moment.utc_offset) == Some(t.week as u32)
                    &&& t.day == day_of(*moment)
                    &&& moment.common() ==> t.when().dated()
                },
                None => date_of(*moment) is None || iso_week_in(
                    moment.timestamp,
                    moment.utc_offset,
                ) is None,
            },
            moment.common() ==> r is Some,
    {
        match moment.date() {
            None => None,
            Some(date) => match moment.week() {
                None => None,
                Some(week) => Some(
                    ReportTime { timestamp: moment.timestamp, date, week, day: moment.day() },
                ),
            },
        }
    }
}

/// What was filed in the week with the number `week`, on the day `day` where that is known, lies in
/// the week of `now`. Weeks of other years have the same numbers, so the number alone decides only
/// where the day is not known.
pub open spec fn lies_in_week(week: int, day: Option<i32>, now: When) -> bool {
    week == now.week && match day {
        Some(d) => week_of(d as int) == week_of(now.day),
        None => true,
    }
}

/// Whether what was filed in the week with the number `week`, on the day `day` where that is known,
/// lies in the week of `now`.
pub fn is_in_week(week: i32, day: Option<i32>, now: &ReportTime) -> (r: bool)
    ensures
        r == lies_in_week(week as int, day, now.when()),
{
    week == now.week && match day {
        Some(d) => week_index(d as i64) == week_index(now.day),
        None => true,
    }
}

/// The counts of the day in the history are those of the day of `now`.
pub open spec fn has_day(h: History, now: When) -> bool {
    h.day == now.date
}

/// The counts of the week in the history are those of the week of `now`, by the number of the week
/// and by the day of the last report.
pub open spec fn has_week(h: History, now: When) -> bool {
    lies_in_week(h.week, parsed_day_in(h.day, "%Y-%m-%d"@), now)
}

impl NasTrafficHistory {
    /// Whether the counts of the day are those of the day of `now`.
    pub fn is_of_day(&self, now: &ReportTime) -> (r: bool)
        ensures
            r == has_day(self.history(), now.when()),
    {
        same_text(self.daily_api_date.as_str(), now.date.as_str())
    }

    /// Whether the counts of the week are those of the week of `now`.
    pub fn is_of_week(&self, now: &ReportTime) -> (r: bool)
        ensures
            r == has_week(self.history(), now.when()),
    {
        is_in_week(
            self.weekly_api_week,
            parse_day(self.daily_api_date.as_str(), "%Y-%m-%d"),
            now,
        )
    }
}

/// What is kept of a device, or an empty record where nothing is.
pub open spec fn device_in(h: History, name: Seq<char>) -> Device {
    if h.devices.contains_key(name) {
        h.devices[name]
    } else {
        empty_device()
    }
}

/// What is kept of a node, or an empty record where nothing is.
pub open spec fn node_in(h: History, key: Seq<char>) -> NodeTotals {
    if h.nodes.contains_key(key) {
        h.nodes[key]
    } else {
        empty_node()
    }
}

/// The report was applied before.
pub open spec fn is_repeat(h: History, p: Report) -> bool {
    is_delta(p) && p.id.len() > 0 && device_in(h, p.device).ids.contains(p.id)
}

/// The report names a node to count it under.
pub open spec fn names_node(p: Report) -> bool {
    p.node.len() > 0 && p.node != "未知"@ && p.node != "未配置"@
}

/// A device after a report with the abnormal bytes `eff`.
pub open spec fn device_after(
    dev: Device,
    p: Report,
    eff: Map<Seq<char>, Classified>,
    timestamp: int,
) -> Device {
    Device {
        download: dev.download + p.download,
        upload: dev.upload + p.upload,
        last_seen: timestamp,
        node: p.node,
        ids: if is_delta(p) {
            remember(dev.ids, p.id)
        } else {
            dev.ids
        },
        abnormal_total: dev.abnormal_total + classified_sum(eff),
        domains: plus(dev.domains, p.domains),
        abnormal: plus_classified(dev.abnormal, eff),
    }
}

/// A node after a report with the abnormal bytes `eff`.
pub open spec fn node_after(
    node: NodeTotals,
    p: Report,
    eff: Map<Seq<char>, Classified>,
) -> NodeTotals {
    NodeTotals {
        download: node.download + p.download,
        upload: node.upload + p.upload,
        domains: plus(node.domains, p.domains),
        abnormal: plus_classified(node.abnormal, eff),
        ..node
    }
}

/// The history at the given time: what was counted on another day, or in another week, is taken
/// away.
pub open spec fn turned(h: History, now: When) -> History {
    History {
        daily: if has_day(h, now) {
            h.daily
        } else {
            Map::empty()
        },
        daily_abnormal: if has_day(h, now) {
            h.daily_abnormal
        } else {
            Map::empty()
        },
        day: now.date,
        weekly: if has_week(h, now) {
            h.weekly
        } else {
            Map::empty()
        },
        weekly_abnormal: if has_week(h, now) {
            h.weekly_abnormal
        } else {
            Map::empty()
        },
        week: now.week,
        ..h
    }
}

/// The history after a report. One that was applied before changes nothing but when the device was
/// last seen and at which node.
pub open spec fn after_report(
    h: History,
    p: Report,
    now: When,
    suffixes: Seq<Seq<char>>,
) -> History {
    let dev = device_in(h, p.device);
    if is_repeat(h, p) {
        History {
            devices: h.devices.insert(
                p.device,
                (Device { last_seen: now.timestamp, node: p.node, ..dev }),
            ),
            ..h
        }
    } else {
        let eff = effective_abnormal(p.domains, p.abnormal, suffixes);
        let key = node_key(p.node);
        let t = turned(h, now);
        History {
            devices: h.devices.insert(p.device, device_after(dev, p, eff, now.timestamp)),
            nodes: if names_node(p) {
                h.nodes.insert(key, node_after(node_in(h, key), p, eff))
            } else {
                h.nodes
            },
            daily: plus(t.daily, positive(p.domains)),
            daily_abnormal: plus_classified(t.daily_abnormal, eff),
            weekly: plus(t.weekly, positive(p.domains)),
            weekly_abnormal: plus_classified(t.weekly_abnormal, eff),
            ..t
        }
    }
}

/// Every sum that comes up in applying a report is an `i64`.
pub open spec fn report_fits_in(
    h: History,
    p: Report,
    now: When,
    suffixes: Seq<Seq<char>>,
) -> bool {
    let dev = device_in(h, p.device);
    let eff = effective_abnormal(p.domains, p.abnormal, suffixes);
    let node = node_in(h, node_key(p.node));
    let t = turned(h, now);
    is_repeat(h, p) || {
        &&& fits(dev.download + p.download)
        &&& fits(dev.upload + p.upload)
        &&& fits(dev.abnormal_total + classified_sum(eff))
        &&& sums_fit(dev.domains, p.domains)
        &&& classified_fit(dev.abnormal, eff)
        &&& names_node(p) ==> {
            &&& fits(node.download + p.download)
            &&& fits(node.upload + p.upload)
            &&& sums_fit(node.domains, p.domains)
            &&& classified_fit(node.abnormal, eff)
        }
        &&& sums_fit(t.daily, positive(p.domains))
        &&& sums_fit(t.weekly, positive(p.domains))
        &&& classified_fit(t.daily_abnormal, eff)
        &&& classified_fit(t.weekly_abnormal, eff)
    }
}

proof fn lemma_effective_is_positive(
    domains: Map<Seq<char>, int>,
    abnormal: Map<Seq<char>, Classified>,
    suffixes: Seq<Seq<char>>,
)
    ensures
        forall|k: Seq<char>| #[trigger]
            effective_abnormal(domains, abnormal, suffixes).contains_key(k)
                ==> effective_abnormal(domains, abnormal, suffixes)[k].bytes > 0,
{
}

/// Whether the report names a node to count it under.
fn has_node(payload: &TrafficReportRequest) -> (r: bool)
    ensures
        r == names_node(payload.report()),
{
    let node = payload.current_node_ip.as_str();
    !node.is_empty() && !same_text(node, "未知") && !same_text(node, "未配置")
}

impl DeviceHistory {
    /// Whether a report with the abnormal bytes `eff` can be added.
    fn takes(&self, payload: &TrafficReportRequest, eff: &TextMap<ClassifiedDomainDelta>) -> (r:
        bool)
        requires
            forall|k: Seq<char>| #[trigger] eff.map().contains_key(k) ==> eff.map()[k].bytes > 0,
        ensures
            r == {
                let dev = self.model();
                let p = payload.report();
                &&& fits(dev.download + p.download)
                &&& fits(dev.upload + p.upload)
                &&& fits(dev.abnormal_total + classified_sum(eff.map()))
                &&& sums_fit(dev.domains, p.domains)
                &&& classified_fit(dev.abnormal, eff.map())
            },
    {
        sum_fits(self.total_download, payload.download_delta) && sum_fits(
            self.total_upload,
            payload.upload_delta,
        ) && with_all_bytes(self.total_abnormal_proxy, eff).is_some()
            && self.domain_traffic.sums_fit(&payload.domain_deltas)
            && self.abnormal_domain_traffic.classified_fit(eff)
    }

    /// Adds a report with the abnormal bytes `eff`.
    fn add_report(
        &mut self,
        payload: &TrafficReportRequest,
        eff: &TextMap<ClassifiedDomainDelta>,
        timestamp: i64,
    )
        requires
            forall|k: Seq<char>| #[trigger] eff.map().contains_key(k) ==> eff.map()[k].bytes > 0,
            ({
                let dev = old(self).model();
                let p = payload.report();
                &&& fits(dev.download + p.download)
                &&& fits(dev.upload + p.upload)
                &&& fits(dev.abnormal_total + classified_sum(eff.map()))
                &&& sums_fit(dev.domains, p.domains)
                &&& classified_fit(dev.abnormal, eff.map())
            }),
        ensures
            final(self).model() == device_after(
                old(self).model(),
                payload.report(),
                eff.map(),
                timestamp as int,
            ),
    {
        let delta = is_delta_report(payload);
        self.total_download = self.total_download + payload.download_delta;
        self.total_upload = self.total_upload + payload.upload_delta;
        self.last_seen = timestamp;
        self.current_node = payload.current_node_ip.clone();
        self.domain_traffic.add_counts(&payload.domain_deltas);
        if let Some(total) = with_all_bytes(self.total_abnormal_proxy, eff) {
            self.total_abnormal_proxy = total;
        }
        self.abnormal_domain_traffic.add_classified(eff);
        if delta {
            remember_processed_report_id(self, payload.report_id.as_str());
        }
        assert(self.model() =~= device_after(
            old(self).model(),
            payload.report(),
            eff.map(),
            timestamp as int,
        ));
    }
}

impl NodeHistory {
    /// Whether a report with the abnormal bytes `eff` can be added.
    fn takes(&self, payload: &TrafficReportRequest, eff: &TextMap<ClassifiedDomainDelta>) -> (r:
        bool)
        ensures
            r == {
                let node = self.model();
                let p = payload.report();
                &&& fits(node.download + p.download)
                &&& fits(node.upload + p.upload)
                &&& sums_fit(node.domains, p.domains)
                &&& classified_fit(node.abnormal, eff.map())
            },
    {
        sum_fits(self.total_download, payload.download_delta) && sum_fits(
            self.total_upload,
            payload.upload_delta,
        ) && self.domain_traffic.sums_fit(&payload.domain_deltas)
            && self.abnormal_domain_traffic.classified_fit(eff)
    }

    /// Adds a report with the abnormal bytes `eff`.
    fn add_report(
        &mut self,
        payload: &TrafficReportRequest,
        eff: &TextMap<ClassifiedDomainDelta>,
    )
        requires
            ({
                let node = old(self).model();
                let p = payload.report();
                &&& fits(node.download + p.download)
                &&& fits(node.upload + p.upload)
                &&& sums_fit(node.domains, p.domains)
                &&& classified_fit(node.abnormal, eff.map())
            }),
        ensures
            final(self).model() == node_after(old(self).model(), payload.report(), eff.map()),
    {
        self.total_download = self.total_download + payload.download_delta;
        self.total_upload = self.total_upload + payload.upload_delta;
        self.domain_traffic.add_counts(&payload.domain_deltas);
        self.abnormal_domain_traffic.add_classified(eff);
        assert(self.model() =~= node_after(old(self).model(), payload.report(), eff.map()));
    }
}

/// Whether every sum that comes up in applying a report is an `i64`.
pub fn report_fits(
    history: &NasTrafficHistory,
    payload: &TrafficReportRequest,
    now: &ReportTime,
    direct_suffixes: &Vec<String>,
) -> (r: bool)
    ensures
        r == report_fits_in(
            history.history(),
            payload.report(),
            now.when(),
            views(direct_suffixes@),
        ),
{
    if is_known_report(history, payload) {
        return true;
    }
    let eff = effective_abnormal_deltas(payload, direct_suffixes);
    let fresh_device = DeviceHistory::default();
    let dev = match history.devices.get(payload.device_name.as_str()) {
        Some(d) => d,
        None => &fresh_device,
    };
    if !dev.takes(payload, &eff) {
        return false;
    }
    if has_node(payload) {
        let key = normalize_node_key(payload.current_node_ip.as_str());
        let fresh_node = NodeHistory::default();
        let node = match history.nodes.get(key.as_str()) {
            Some(n) => n,
            None => &fresh_node,
        };
        if !node.takes(payload, &eff) {
            return false;
        }
    }
    let none: TextMap<i64> = TextMap::new();
    let none_classified: TextMap<ClassifiedDomainDelta> = TextMap::new();
    let same_day = history.is_of_day(now);
    let same_week = history.is_of_week(now);
    let daily = if same_day {
        &history.daily_api_traffic
    } else {
        &none
    };
    let weekly = if same_week {
        &history.weekly_api_traffic
    } else {
        &none
    };
    let daily_abnormal = if same_day {
        &history.daily_abnormal_traffic
    } else {
        &none_classified
    };
    let weekly_abnormal = if same_week {
        &history.weekly_abnormal_traffic
    } else {
        &none_classified
    };
    daily.positive_sums_fit(&payload.domain_deltas) && weekly.positive_sums_fit(
        &payload.domain_deltas,
    ) && daily_abnormal.classified_fit(&eff) && weekly_abnormal.classified_fit(&eff)
}

/// Whether the report was applied before.
fn is_known_report(history: &NasTrafficHistory, payload: &TrafficReportRequest) -> (r: bool)
    ensures
        r == is_repeat(history.history(), payload.report()),
{
    is_delta_report(payload) && !payload.report_id.as_str().is_empty()
        && match history.devices.get(payload.device_name.as_str()) {
        Some(d) => list_has(&d.processed_report_ids, payload.report_id.as_str()),
        None => false,
    }
}

/// Adds a report to the history, and says whether it was applied before.
pub fn apply_report_to_history(
    history: &mut NasTrafficHistory,
    payload: &TrafficReportRequest,
    now: &ReportTime,
    direct_suffixes: &Vec<String>,
) -> (r: bool)
    requires
        report_fits_in(
            old(history).history(),
            payload.report(),
            now.when(),
            views(direct_suffixes@),
        ),
    ensures
        r == is_repeat(old(history).history(), payload.report()),
        final(history).history() == after_report(
            old(history).history(),
            payload.report(),
            now.when(),
            views(direct_suffixes@),
        ),
{
    let ghost h = history.history();
    let ghost p = payload.report();
    let repeat = is_known_report(history, payload);
    let eff = effective_abnormal_deltas(payload, direct_suffixes);
    proof {
        lemma_effective_is_positive(p.domains, p.abnormal, views(direct_suffixes@));
    }
    let dev = history.devices.entry(payload.device_name.as_str(), DeviceHistory::default());
    if repeat {
        dev.last_seen = now.timestamp;
        dev.current_node = payload.current_node_ip.clone();
        assert(history.history() =~= after_report(
            h,
            p,
            now.when(),
            views(direct_suffixes@),
        ));
        return true;
    }
    dev.add_report(payload, &eff, now.timestamp);

    if has_node(payload) {
        let key = normalize_node_key(payload.current_node_ip.as_str());
        let node = history.nodes.entry(key.as_str(), NodeHistory::default());
        node.add_report(payload, &eff);
    }
    if !history.is_of_week(now) {
        history.weekly_api_traffic.clear();
        history.weekly_abnormal_traffic.clear();
        history.weekly_api_week = now.week;
    }
    if !history.is_of_day(now) {
        history.daily_api_traffic.clear();
        history.daily_abnormal_traffic.clear();
        history.daily_api_date = now.date.clone();
    }
    history.daily_api_traffic.add_positive(&payload.domain_deltas);
    history.weekly_api_traffic.add_positive(&payload.domain_deltas);
    history.daily_abnormal_traffic.add_classified(&eff);
    history.weekly_abnormal_traffic.add_classified(&eff);
    assert(history.history() =~= after_report(
        h,
        p,
        now.when(),
        views(direct_suffixes@),
    ));
    false
}

/// Adds a report to the history, and says whether it was applied before, if every sum that comes
/// up is an `i64`; else nothing changes.
pub fn try_apply_report(
    history: &mut NasTrafficHistory,
    payload: &TrafficReportRequest,
    now: &ReportTime,
    direct_suffixes: &Vec<String>,
) -> (r: Option<bool>)
    ensures
        ({
            let h = old(history).history();
            let p = payload.report();
            let suffixes = views(direct_suffixes@);
            match r {
                Some(repeat) => {
                    &&& report_fits_in(h, p, now.when(), suffixes)
                    &&& repeat == is_repeat(h, p)
                    &&& final(history).history() == after_report(
                        h,
                        p,
                        now.when(),
                        suffixes,
                    )
                },
                None => !report_fits_in(h, p, now.when(), suffixes)
                    && *final(history) == *old(history),
            }
        }),
{
    if report_fits(history, payload, now, direct_suffixes) {
        Some(apply_report_to_history(history, payload, now, direct_suffixes))
    } else {
        None
    }
}

// ---------------------------------------------------------------------------
// What holds of every report
// ---------------------------------------------------------------------------

/// A report with an id that is sent again counts once: the second time only when the device was
/// last seen, and at which node, changes.
pub proof fn repeated_report_counts_once(
    h: History,
    p: Report,
    now: When,
    suffixes: Seq<Seq<char>>,
    later: When,
    later_suffixes: Seq<Seq<char>>,
)
    requires
        is_delta(p),
        trim(p.id).len() > 0,
    ensures
        ({
            let once = after_report(h, p, now, suffixes);
            let twice = after_report(once, p, later, later_suffixes);
            &&& is_repeat(once, p)
            &&& once.devices.contains_key(p.device)
            &&& twice == (History {
                devices: once.devices.insert(
                    p.device,
                    (Device { last_seen: later.timestamp, node: p.node, ..once.devices[p.device] }),
                ),
                ..once
            })
        }),
{
    let once = after_report(h, p, now, suffixes);
    let before = device_in(h, p.device).ids;
    let after = device_in(once, p.device).ids;
    assert(p.id.len() > 0) by {
        if p.id.len() == 0 {
            assert(trim(p.id) == p.id);
        }
    }
    if !before.contains(p.id) {
        assert(after == remember(before, p.id));
        assert(after.last() == p.id);
        assert(after[after.len() - 1] == p.id);
    }
    assert(after.contains(p.id));
}

/// An accepted report that has an id has one that can be remembered.
pub proof fn accepted_ids_are_not_blank(p: Report, max_delta: int)
    requires
        is_acceptable(p, max_delta),
        p.id.len() > 0,
    ensures
        trim(p.id).len() > 0,
{
}

/// The ids of a device stay at most 500 and stay different from each other, and the newest one is
/// among them.
pub proof fn remembered_ids_stay_bounded(ids: Seq<Seq<char>>, id: Seq<char>)
    requires
        ids.len() <= 500,
        ids.no_duplicates(),
    ensures
        remember(ids, id).len() <= 500,
        remember(ids, id).no_duplicates(),
        trim(id).len() > 0 ==> remember(ids, id).contains(id),
{
    let r = remember(ids, id);
    if trim(id).len() > 0 && !ids.contains(id) {
        assert(r[r.len() - 1] == id);
        let all = ids.push(id);
        let off: int = all.len() - r.len();
        assert forall|i: int, j: int| 0 <= i < r.len() && 0 <= j < r.len() && i != j implies r[i]
            != r[j] by {
            assert(r[i] == all[i + off] && r[j] == all[j + off]);
            if i + off < ids.len() {
                assert(all[i + off] == ids[i + off]);
            }
            if j + off < ids.len() {
                assert(all[j + off] == ids[j + off]);
            }
        }
    }
}

/// No device has more than 500 ids, and no id of a device stands twice.
pub open spec fn ids_bounded(h: History) -> bool {
    forall|k: Seq<char>| #[trigger]
        h.devices.contains_key(k) ==> h.devices[k].ids.len() <= 500
            && h.devices[k].ids.no_duplicates()
}

/// Reports keep the ids of all devices bounded.
pub proof fn reports_keep_ids_bounded(
    h: History,
    p: Report,
    now: When,
    suffixes: Seq<Seq<char>>,
)
    requires
        ids_bounded(h),
    ensures
        ids_bounded(after_report(h, p, now, suffixes)),
{
    let after = after_report(h, p, now, suffixes);
    remembered_ids_stay_bounded(device_in(h, p.device).ids, p.id);
    assert forall|k: Seq<char>| #[trigger] after.devices.contains_key(k) implies
        after.devices[k].ids.len() <= 500 && after.devices[k].ids.no_duplicates() by {
        if k != p.device {
            assert(h.devices.contains_key(k));
        }
    }
}

/// A report that comes in, and when.
pub struct Arrival {
    pub report: Report,
    pub now: When,
    pub suffixes: Seq<Seq<char>>,
}

/// The history after a report has come in.
pub open spec fn after_arrival(h: History, a: Arrival) -> History {
    after_report(h, a.report, a.now, a.suffixes)
}

/// The history after several reports have come in, one after the other.
pub open spec fn after_arrivals(h: History, list: Seq<Arrival>) -> History
    decreases list.len(),
{
    if list.len() == 0 {
        h
    } else {
        after_arrival(after_arrivals(h, list.drop_last()), list.last())
    }
}

/// The id stands among the last `n` ids.
pub open spec fn among_last(ids: Seq<Seq<char>>, id: Seq<char>, n: int) -> bool {
    exists|i: int| 0 <= i < ids.len() && #[trigger] ids[i] == id && ids.len() - i <= n
}

proof fn lemma_among_last(ids: Seq<Seq<char>>, id: Seq<char>, n: int, more: Seq<char>)
    requires
        among_last(ids, id, n),
        n < 500,
    ensures
        among_last(remember(ids, more), id, n + 1),
{
    let i = choose|i: int| 0 <= i < ids.len() && #[trigger] ids[i] == id && ids.len() - i <= n;
    let after = remember(ids, more);
    if after.len() == ids.len() && after == ids {
        assert(after[i] == id);
    } else {
        let j = i - (ids.len() + 1 - after.len());
        assert(after[j] == id);
    }
}

proof fn lemma_id_stays(h: History, list: Seq<Arrival>, device: Seq<char>, id: Seq<char>)
    requires
        among_last(device_in(h, device).ids, id, 1),
        list.len() < 500,
    ensures
        among_last(device_in(after_arrivals(h, list), device).ids, id, list.len() as int + 1),
    decreases list.len(),
{
    if list.len() > 0 {
        let before = after_arrivals(h, list.drop_last());
        let ids = device_in(before, device).ids;
        let p = list.last().report;
        lemma_id_stays(h, list.drop_last(), device, id);
        lemma_among_last(ids, id, list.len() as int, p.id);
        let i = choose|i: int|
            0 <= i < ids.len() && #[trigger] ids[i] == id && ids.len() - i <= list.len();
        assert(ids[i] == id);
        assert(among_last(ids, id, list.len() as int + 1));
    }
}

/// A report with an id that was taken in is still known after up to 499 other ones, whoever sent
/// them: sent again, it counts no second time.
pub proof fn report_stays_known(h: History, first: Arrival, later: Seq<Arrival>)
    requires
        is_delta(first.report),
        trim(first.report.id).len() > 0,
        !is_repeat(h, first.report),
        later.len() < 500,
    ensures
        is_repeat(after_arrivals(after_arrival(h, first), later), first.report),
{
    let p = first.report;
    let once = after_arrival(h, first);
    let ids = device_in(once, p.device).ids;
    assert(p.id.len() > 0) by {
        if p.id.len() == 0 {
            assert(trim(p.id).len() == 0);
        }
    }
    assert(ids == remember(device_in(h, p.device).ids, p.id));
    assert(ids[ids.len() - 1] == p.id);
    assert(among_last(ids, p.id, 1));
    lemma_id_stays(once, later, p.device, p.id);
    let end = device_in(after_arrivals(once, later), p.device).ids;
    let i = choose|i: int|
        0 <= i < end.len() && #[trigger] end[i] == p.id && end.len() - i <= later.len() + 1;
    assert(end.contains(end[i]));
}

/// A report that carries no bytes adds none: it only says when the device was last seen and at
/// which node.
pub proof fn heartbeat_adds_nothing(
    h: History,
    p: Report,
    max_delta: int,
    now: When,
    suffixes: Seq<Seq<char>>,
)
    requires
        is_acceptable(p, max_delta),
        !is_delta(p),
    ensures
        ({
            let dev = device_in(h, p.device);
            let key = node_key(p.node);
            after_report(h, p, now, suffixes) == (History {
                devices: h.devices.insert(
                    p.device,
                    (Device { last_seen: now.timestamp, node: p.node, ..dev }),
                ),
                nodes: if names_node(p) {
                    h.nodes.insert(key, node_in(h, key))
                } else {
                    h.nodes
                },
                ..turned(h, now)
            })
        }),
{
    let eff = effective_abnormal(p.domains, p.abnormal, suffixes);
    let none = Map::<Seq<char>, Classified>::empty();
    assert(eff =~= none);
    assert(bare_bytes(none) =~= Map::<Seq<char>, int>::empty());
    assert(positive(p.domains) =~= Map::<Seq<char>, int>::empty());
    assert forall|m: Map<Seq<char>, int>| #[trigger] plus(m, Map::empty()) == m by {
        assert(plus(m, Map::empty()) =~= m);
    }
    assert forall|m: Map<Seq<char>, Classified>| #[trigger] plus_classified(m, none) == m by {
        assert(plus_classified(m, none) =~= m);
    }
    let dev = device_in(h, p.device);
    assert(device_after(dev, p, eff, now.timestamp) =~= (Device {
        last_seen: now.timestamp,
        node: p.node,
        ..dev
    }));
    let node = node_in(h, node_key(p.node));
    assert(node_after(node, p, eff) =~= node);
}

/// The first report of another day begins the counts of the day anew. The first report of another
/// week begins the counts of the week anew: one with another number, and one of any year that does
/// not hold the day of the last report.
pub proof fn counts_begin_anew(h: History, p: Report, now: When, suffixes: Seq<Seq<char>>)
    requires
        !is_repeat(h, p),
    ensures
        ({
            let after = after_report(h, p, now, suffixes);
            let eff = effective_abnormal(p.domains, p.abnormal, suffixes);
            let stored = parsed_day_in(h.day, "%Y-%m-%d"@);
            &&& after.day == now.date
            &&& after.week == now.week
            &&& h.day != now.date ==> after.daily == positive(p.domains) && after.daily_abnormal
                == eff
            &&& h.week != now.week || (stored is Some && week_of(stored->0 as int) != week_of(
                now.day,
            )) ==> after.weekly == positive(p.domains) && after.weekly_abnormal == eff
        }),
{
    let eff = effective_abnormal(p.domains, p.abnormal, suffixes);
    assert(plus(Map::empty(), positive(p.domains)) =~= positive(p.domains));
    assert(plus_classified(Map::empty(), eff) =~= eff);
}

/// Between two reports on days with a Monday between them the counts of the week begin anew,
/// however many years lie between them.
pub proof fn no_week_outlasts_its_sunday(h: History, first: Arrival, second: Arrival)
    requires
        first.now.dated(),
        week_of(first.now.day) != week_of(second.now.day),
        !is_repeat(h, first.report),
        !is_repeat(after_arrival(h, first), second.report),
    ensures
        after_arrivals(h, seq![first, second]).weekly == positive(second.report.domains),
        after_arrivals(h, seq![first, second]).weekly_abnormal == effective_abnormal(
            second.report.domains,
            second.report.abnormal,
            second.suffixes,
        ),
{
    let both = seq![first, second];
    let once = after_arrival(h, first);
    assert(both.drop_last() =~= seq![first]);
    assert(seq![first].drop_last() =~= Seq::<Arrival>::empty());
    reveal_with_fuel(after_arrivals, 3);
    counts_begin_anew(h, first.report, first.now, first.suffixes);
    counts_begin_anew(once, second.report, second.now, second.suffixes);
}

/// Reports of one week are counted together: a report on a day of the week of the last one adds to
/// what was counted in it.
pub proof fn a_week_is_counted_together(
    h: History,
    p: Report,
    now: When,
    suffixes: Seq<Seq<char>>,
    stored: i32,
)
    requires
        !is_repeat(h, p),
        parsed_day_in(h.day, "%Y-%m-%d"@) == Some(stored),
        h.week == now.week,
        week_of(stored as int) == week_of(now.day),
    ensures
        after_report(h, p, now, suffixes).weekly == plus(h.weekly, positive(p.domains)),
        after_report(h, p, now, suffixes).weekly_abnormal == plus_classified(
            h.weekly_abnormal,
            effective_abnormal(p.domains, p.abnormal, suffixes),
        ),
{
}

/// A report changes nothing that is kept of other devices.
pub proof fn other_devices_stay(
    h: History,
    p: Report,
    now: When,
    suffixes: Seq<Seq<char>>,
    name: Seq<char>,
)
    requires
        name != p.device,
    ensures
        device_in(after_report(h, p, now, suffixes), name) == device_in(h, name),
{
}

/// The bytes of a device by domain add up to its download and upload, and its abnormal bytes by
/// domain to their total.
pub open spec fn device_balances(dev: Device) -> bool {
    &&& dev.domains.dom().finite()
    &&& dev.abnormal.dom().finite()
    &&& map_sum(dev.domains) == dev.download + dev.upload
    &&& classified_sum(dev.abnormal) == dev.abnormal_total
}

/// The bytes of a node by domain add up to its download and upload.
pub open spec fn node_balances(node: NodeTotals) -> bool {
    node.domains.dom().finite() && map_sum(node.domains) == node.download + node.upload
}

/// The records of all devices and nodes balance.
pub open spec fn balances(h: History) -> bool {
    &&& forall|k: Seq<char>| #[trigger] h.devices.contains_key(k) ==> device_balances(h.devices[k])
    &&& forall|k: Seq<char>| #[trigger] h.nodes.contains_key(k) ==> node_balances(h.nodes[k])
}

proof fn lemma_classified_sum_plus(m: Map<Seq<char>, Classified>, d: Map<Seq<char>, Classified>)
    requires
        m.dom().finite(),
        d.dom().finite(),
    ensures
        classified_sum(plus_classified(m, d)) == classified_sum(m) + classified_sum(d),
        plus_classified(m, d).dom().finite(),
{
    assert(bare_bytes(m).dom() =~= m.dom());
    assert(bare_bytes(d).dom() =~= d.dom());
    assert(bare_bytes(plus_classified(m, d)) =~= plus(bare_bytes(m), bare_bytes(d)));
    lemma_sum_plus(bare_bytes(m), bare_bytes(d));
    assert(plus_classified(m, d).dom() =~= plus(bare_bytes(m), bare_bytes(d)).dom());
}

/// Records that balance still do after a report whose bytes by domain add up to its download and
/// upload.
pub proof fn records_stay_balanced(
    h: History,
    p: Report,
    now: When,
    suffixes: Seq<Seq<char>>,
)
    requires
        balances(h),
        p.domains.dom().finite(),
        p.abnormal.dom().finite(),
        map_sum(p.domains) == p.download + p.upload,
    ensures
        balances(after_report(h, p, now, suffixes)),
{
    let after = after_report(h, p, now, suffixes);
    let eff = effective_abnormal(p.domains, p.abnormal, suffixes);
    let dev = device_in(h, p.device);
    assert(device_balances(empty_device())) by {
        assert(bare_bytes(Map::empty()) =~= Map::<Seq<char>, int>::empty());
    }
    assert(node_balances(empty_node()));
    if !is_repeat(h, p) {
        assert(eff.dom().finite()) by {
            assert(eff.dom().subset_of(p.domains.dom().union(p.abnormal.dom())));
            vstd::set_lib::lemma_len_subset(eff.dom(), p.domains.dom().union(p.abnormal.dom()));
        }
        lemma_sum_plus(dev.domains, p.domains);
        lemma_classified_sum_plus(dev.abnormal, eff);
        assert(device_balances(device_after(dev, p, eff, now.timestamp)));
        if names_node(p) {
            let node = node_in(h, node_key(p.node));
            lemma_sum_plus(node.domains, p.domains);
            assert(node_balances(node_after(node, p, eff)));
        }
    }
    assert forall|k: Seq<char>| #[trigger] after.devices.contains_key(k) implies device_balances(
        after.devices[k],
    ) by {
        if k != p.device {
            assert(h.devices.contains_key(k));
        }
    }
    assert forall|k: Seq<char>| #[trigger] after.nodes.contains_key(k) implies node_balances(
        after.nodes[k],
    ) by {
        if k != node_key(p.node) {
            assert(h.nodes.contains_key(k));
        }
    }
}

// ---------------------------------------------------------------------------
// What a report adds, domain by domain
// ---------------------------------------------------------------------------

/// The bytes that a report has of a domain: those it lists, or where it lists none those it has
/// classified.
pub open spec fn reported_bytes(p: Report, k: Seq<char>) -> int {
    if p.domains.contains_key(k) {
        p.domains[k]
    } else if p.abnormal.contains_key(k) {
        p.abnormal[k].bytes
    } else {
        0
    }
}

/// The classified bytes under `k` take in what the report has of the domain: where the domain should
/// go direct they grow by it and carry the present classification, else they stay.
pub open spec fn takes_in_abnormal(
    before: Map<Seq<char>, Classified>,
    after: Map<Seq<char>, Classified>,
    p: Report,
    suffixes: Seq<Seq<char>>,
    k: Seq<char>,
) -> bool {
    if reported_bytes(p, k) > 0 && !verdict_on(k, suffixes).should_proxy {
        classified_grows_by(
            before,
            after,
            k,
            (Classified { bytes: reported_bytes(p, k), verdict: verdict_on(k, suffixes) }),
        )
    } else {
        stays_under(before, after, k)
    }
}

/// The domains of a report are classified by the present rules, whatever the report says of them:
/// the abnormal ones are those with bytes above zero that should go direct. What a report has
/// classified counts only for domains that it does not list.
pub proof fn domains_are_classified_anew(p: Report, suffixes: Seq<Seq<char>>, k: Seq<char>)
    ensures
        ({
            let eff = effective_abnormal(p.domains, p.abnormal, suffixes);
            &&& eff.contains_key(k) <==> reported_bytes(p, k) > 0 && !verdict_on(
                k,
                suffixes,
            ).should_proxy
            &&& eff.contains_key(k) ==> eff[k].bytes == reported_bytes(p, k) && eff[k].verdict
                == verdict_on(k, suffixes)
        }),
{
}

/// A report was applied before exactly where its device has its id. That is asked only of reports
/// with an id that carry bytes or say that they do.
pub proof fn repeated_exactly_when(h: History, p: Report)
    ensures
        is_repeat(h, p) <==> {
            &&& p.id.len() > 0
            &&& h.devices.contains_key(p.device)
            &&& h.devices[p.device].ids.contains(p.id)
            &&& p.kind == "delta"@ || p.download > 0 || p.upload > 0 || (exists|k: Seq<char>| #[trigger]
                p.domains.contains_key(k)) || (exists|k: Seq<char>| #[trigger]
                p.abnormal.contains_key(k))
        },
{
    if !(exists|k: Seq<char>| #[trigger] p.domains.contains_key(k)) {
        assert(p.domains =~= Map::<Seq<char>, int>::empty());
    }
    if !(exists|k: Seq<char>| #[trigger] p.abnormal.contains_key(k)) {
        assert(p.abnormal =~= Map::<Seq<char>, Classified>::empty());
    }
}

/// A report that was applied before changes two things: when its device was last seen, and at which
/// node.
pub proof fn repeated_report_only_shows_the_device(
    h: History,
    p: Report,
    now: When,
    suffixes: Seq<Seq<char>>,
)
    requires
        is_repeat(h, p),
    ensures
        ({
            let after = after_report(h, p, now, suffixes);
            let was = h.devices[p.device];
            let dev = after.devices[p.device];
            &&& after.devices.dom() == h.devices.dom()
            &&& forall|k: Seq<char>| k != p.device ==> #[trigger] after.devices[k] == h.devices[k]
            &&& dev.last_seen == now.timestamp
            &&& dev.node == p.node
            &&& dev.download == was.download
            &&& dev.upload == was.upload
            &&& dev.ids == was.ids
            &&& dev.abnormal_total == was.abnormal_total
            &&& dev.domains == was.domains
            &&& dev.abnormal == was.abnormal
            &&& after.nodes == h.nodes
            &&& after.daily == h.daily
            &&& after.day == h.day
            &&& after.weekly == h.weekly
            &&& after.week == h.week
            &&& after.daily_abnormal == h.daily_abnormal
            &&& after.weekly_abnormal == h.weekly_abnormal
        }),
{
    repeated_exactly_when(h, p);
    assert(after_report(h, p, now, suffixes).devices.dom() =~= h.devices.dom());
}

/// A report that was not applied before adds its bytes to its device: the download to the download,
/// the upload to the upload, the bytes of each domain to that domain. The device was then last seen
/// at the time of the report, at the node of the report.
pub proof fn report_adds_to_its_device(
    h: History,
    p: Report,
    now: When,
    suffixes: Seq<Seq<char>>,
    k: Seq<char>,
)
    requires
        !is_repeat(h, p),
    ensures
        ({
            let after = after_report(h, p, now, suffixes);
            let known = h.devices.contains_key(p.device);
            let was = h.devices[p.device];
            let dev = after.devices[p.device];
            let none = Map::<Seq<char>, int>::empty();
            let none_abnormal = Map::<Seq<char>, Classified>::empty();
            &&& after.devices.dom() == h.devices.dom().insert(p.device)
            &&& dev.last_seen == now.timestamp
            &&& dev.node == p.node
            &&& known ==> {
                &&& dev.download == was.download + p.download
                &&& dev.upload == was.upload + p.upload
                &&& p.domains.contains_key(k) ==> grows_by(
                    was.domains,
                    dev.domains,
                    k,
                    p.domains[k],
                )
                &&& !p.domains.contains_key(k) ==> stays_under(was.domains, dev.domains, k)
                &&& takes_in_abnormal(was.abnormal, dev.abnormal, p, suffixes, k)
            }
            &&& !known ==> {
                &&& dev.download == p.download
                &&& dev.upload == p.upload
                &&& p.domains.contains_key(k) ==> grows_by(none, dev.domains, k, p.domains[k])
                &&& !p.domains.contains_key(k) ==> !dev.domains.contains_key(k)
                &&& takes_in_abnormal(none_abnormal, dev.abnormal, p, suffixes, k)
            }
        }),
{
    domains_are_classified_anew(p, suffixes, k);
    let eff = effective_abnormal(p.domains, p.abnormal, suffixes);
    let was = device_in(h, p.device);
    counts_are_added_by_key(was.domains, p.domains, k);
    bytes_are_merged_by_domain(was.abnormal, eff, k);
    assert(after_report(h, p, now, suffixes).devices.dom() =~= h.devices.dom().insert(p.device));
}

/// The abnormal total of a device moves with its abnormal bytes by domain: by their sum, no more and
/// no less.
pub proof fn abnormal_total_moves_with_its_parts(
    h: History,
    p: Report,
    now: When,
    suffixes: Seq<Seq<char>>,
)
    requires
        h.devices.contains_key(p.device),
        h.devices[p.device].abnormal.dom().finite(),
        p.domains.dom().finite(),
        p.abnormal.dom().finite(),
    ensures
        ({
            let was = h.devices[p.device];
            let dev = after_report(h, p, now, suffixes).devices[p.device];
            &&& dev.abnormal.dom().finite()
            &&& dev.abnormal_total - was.abnormal_total == map_sum(
                dev.abnormal.map_values(|c: Classified| c.bytes),
            ) - map_sum(was.abnormal.map_values(|c: Classified| c.bytes))
        }),
{
    if !is_repeat(h, p) {
        let was = h.devices[p.device];
        let eff = effective_abnormal(p.domains, p.abnormal, suffixes);
        assert(eff.dom().subset_of(p.domains.dom().union(p.abnormal.dom())));
        lemma_classified_sum_plus(was.abnormal, eff);
    }
}

/// A report that was not applied before leaves its id with its device as the newest one, if it
/// carries bytes or says that it does and the id is neither blank nor there; at most the last 500
/// stay, in their order. In all other cases the ids stay as they are.
pub proof fn newest_ids_are_kept(h: History, p: Report, now: When, suffixes: Seq<Seq<char>>)
    requires
        !is_repeat(h, p),
        h.devices.contains_key(p.device),
    ensures
        ({
            let was = h.devices[p.device].ids;
            let ids = after_report(h, p, now, suffixes).devices[p.device].ids;
            if is_delta(p) && trim(p.id).len() > 0 && !was.contains(p.id) {
                &&& ids.len() > 0
                &&& ids.last() == p.id
                &&& was.len() < 500 ==> ids.drop_last() == was
                &&& was.len() >= 500 ==> ids.len() == 500 && ids.drop_last() == was.skip(
                    was.len() - 499,
                )
            } else {
                ids == was
            }
        }),
{
    let was = h.devices[p.device].ids;
    let ids = remember(was, p.id);
    if was.len() < 500 {
        assert(was.push(p.id).drop_last() =~= was);
    } else {
        assert(was.push(p.id).skip(was.len() as int + 1 - 500).drop_last() =~= was.skip(
            was.len() - 499,
        ));
    }
}

/// A report that was not applied before and names a node adds its bytes to that node, under the
/// node's key: the download to the download, the upload to the upload, the bytes of each domain to
/// that domain. What is kept of the node's server stays, and so does every other node. A report that
/// names none changes no node.
pub proof fn report_adds_to_its_node(
    h: History,
    p: Report,
    now: When,
    suffixes: Seq<Seq<char>>,
    k: Seq<char>,
    other: Seq<char>,
)
    requires
        !is_repeat(h, p),
    ensures
        ({
            let after = after_report(h, p, now, suffixes);
            let key = node_key(p.node);
            let was = h.nodes[key];
            let node = after.nodes[key];
            let none = Map::<Seq<char>, int>::empty();
            let none_abnormal = Map::<Seq<char>, Classified>::empty();
            &&& p.node.len() == 0 || p.node == "未知"@ || p.node == "未配置"@ ==> after.nodes
                == h.nodes
            &&& p.node.len() > 0 && p.node != "未知"@ && p.node != "未配置"@ ==> {
                &&& after.nodes.contains_key(key)
                &&& other != key ==> stays_under(h.nodes, after.nodes, other)
                &&& h.nodes.contains_key(key) ==> {
                    &&& node.server == was.server
                    &&& node.port == was.port
                    &&& node.download == was.download + p.download
                    &&& node.upload == was.upload + p.upload
                    &&& p.domains.contains_key(k) ==> grows_by(
                        was.domains,
                        node.domains,
                        k,
                        p.domains[k],
                    )
                    &&& !p.domains.contains_key(k) ==> stays_under(was.domains, node.domains, k)
                    &&& takes_in_abnormal(was.abnormal, node.abnormal, p, suffixes, k)
                }
                &&& !h.nodes.contains_key(key) ==> {
                    &&& node.server.len() == 0
                    &&& node.port == 0
                    &&& node.download == p.download
                    &&& node.upload == p.upload
                    &&& p.domains.contains_key(k) ==> grows_by(none, node.domains, k, p.domains[k])
                    &&& !p.domains.contains_key(k) ==> !node.domains.contains_key(k)
                    &&& takes_in_abnormal(none_abnormal, node.abnormal, p, suffixes, k)
                }
            }
        }),
{
    domains_are_classified_anew(p, suffixes, k);
    let eff = effective_abnormal(p.domains, p.abnormal, suffixes);
    let was = node_in(h, node_key(p.node));
    counts_are_added_by_key(was.domains, p.domains, k);
    bytes_are_merged_by_domain(was.abnormal, eff, k);
}

/// Reports of one day are counted together: a report on the day of the last one adds to what was
/// counted on it, each domain by its bytes, and none whose bytes are not above zero.
pub proof fn a_day_is_counted_together(
    h: History,
    p: Report,
    now: When,
    suffixes: Seq<Seq<char>>,
    k: Seq<char>,
)
    requires
        !is_repeat(h, p),
        h.day == now.date,
    ensures
        ({
            let after = after_report(h, p, now, suffixes);
            &&& after.daily == plus(h.daily, positive(p.domains))
            &&& after.daily_abnormal == plus_classified(
                h.daily_abnormal,
                effective_abnormal(p.domains, p.abnormal, suffixes),
            )
            &&& p.domains.contains_key(k) && p.domains[k] > 0 ==> grows_by(
                h.daily,
                after.daily,
                k,
                p.domains[k],
            )
            &&& !(p.domains.contains_key(k) && p.domains[k] > 0) ==> stays_under(
                h.daily,
                after.daily,
                k,
            )
            &&& takes_in_abnormal(h.daily_abnormal, after.daily_abnormal, p, suffixes, k)
        }),
{
    domains_are_classified_anew(p, suffixes, k);
    let eff = effective_abnormal(p.domains, p.abnormal, suffixes);
    counts_are_added_by_key(p.domains, p.domains, k);
    counts_are_added_by_key(h.daily, positive(p.domains), k);
    bytes_are_merged_by_domain(h.daily_abnormal, eff, k);
}

/// Reports of one week are counted together domain by domain: a report in the week of the last one,
/// by the number of the week and by the day of the last report where that can be read, adds to what
/// was counted in it, each domain by its bytes, and none whose bytes are not above zero.
pub proof fn a_week_is_counted_by_domain(
    h: History,
    p: Report,
    now: When,
    suffixes: Seq<Seq<char>>,
    k: Seq<char>,
)
    requires
        !is_repeat(h, p),
        h.week == now.week,
        match parsed_day_in(h.day, "%Y-%m-%d"@) {
            Some(stored) => week_of(stored as int) == week_of(now.day),
            None => true,
        },
    ensures
        ({
            let after = after_report(h, p, now, suffixes);
            &&& p.domains.contains_key(k) && p.domains[k] > 0 ==> grows_by(
                h.weekly,
                after.weekly,
                k,
                p.domains[k],
            )
            &&& !(p.domains.contains_key(k) && p.domains[k] > 0) ==> stays_under(
                h.weekly,
                after.weekly,
                k,
            )
            &&& takes_in_abnormal(h.weekly_abnormal, after.weekly_abnormal, p, suffixes, k)
        }),
{
    domains_are_classified_anew(p, suffixes, k);
    let eff = effective_abnormal(p.domains, p.abnormal, suffixes);
    counts_are_added_by_key(p.domains, p.domains, k);
    counts_are_added_by_key(h.weekly, positive(p.domains), k);
    bytes_are_merged_by_domain(h.weekly_abnormal, eff, k);
}

/// The first report of another day, and of another week, leaves in the counts of that day, or week,
/// its own bytes and nothing else.
pub proof fn new_counts_hold_one_report(
    h: History,
    p: Report,
    now: When,
    suffixes: Seq<Seq<char>>,
    k: Seq<char>,
)
    requires
        !is_repeat(h, p),
    ensures
        ({
            let after = after_report(h, p, now, suffixes);
            let none = Map::<Seq<char>, Classified>::empty();
            let stored = parsed_day_in(h.day, "%Y-%m-%d"@);
            &&& h.day != now.date ==> {
                &&& after.daily.contains_key(k) <==> p.domains.contains_key(k) && p.domains[k] > 0
                &&& after.daily.contains_key(k) ==> after.daily[k] == p.domains[k]
                &&& takes_in_abnormal(none, after.daily_abnormal, p, suffixes, k)
            }
            &&& h.week != now.week || (stored is Some && week_of(stored->0 as int) != week_of(
                now.day,
            )) ==> {
                &&& after.weekly.contains_key(k) <==> p.domains.contains_key(k) && p.domains[k] > 0
                &&& after.weekly.contains_key(k) ==> after.weekly[k] == p.domains[k]
                &&& takes_in_abnormal(none, after.weekly_abnormal, p, suffixes, k)
            }
        }),
{
    counts_begin_anew(h, p, now, suffixes);
    domains_are_classified_anew(p, suffixes, k);
    counts_are_added_by_key(p.domains, p.domains, k);
}

/// A report can be applied exactly where it was applied before, or every number of the history that
/// it changes is an `i64` afterwards.
pub proof fn reports_fit_where_their_sums_do(
    h: History,
    p: Report,
    now: When,
    suffixes: Seq<Seq<char>>,
)
    ensures
        ({
            let after = after_report(h, p, now, suffixes);
            let eff = effective_abnormal(p.domains, p.abnormal, suffixes);
            let dev = after.devices[p.device];
            let node = after.nodes[node_key(p.node)];
            report_fits_in(h, p, now, suffixes) <==> is_repeat(h, p) || {
                &&& fits(dev.download)
                &&& fits(dev.upload)
                &&& fits(dev.abnormal_total)
                &&& forall|k: Seq<char>| #[trigger]
                    p.domains.contains_key(k) ==> fits(dev.domains[k])
                &&& forall|k: Seq<char>| #[trigger]
                    eff.contains_key(k) ==> fits(dev.abnormal[k].bytes)
                &&& p.node.len() > 0 && p.node != "未知"@ && p.node != "未配置"@ ==> {
                    &&& fits(node.download)
                    &&& fits(node.upload)
                    &&& forall|k: Seq<char>| #[trigger]
                        p.domains.contains_key(k) ==> fits(node.domains[k])
                    &&& forall|k: Seq<char>| #[trigger]
                        eff.contains_key(k) ==> fits(node.abnormal[k].bytes)
                }
                &&& forall|k: Seq<char>| #[trigger]
                    p.domains.contains_key(k) && p.domains[k] > 0 ==> fits(after.daily[k]) && fits(
                        after.weekly[k],
                    )
                &&& forall|k: Seq<char>| #[trigger]
                    eff.contains_key(k) ==> fits(after.daily_abnormal[k].bytes) && fits(
                        after.weekly_abnormal[k].bytes,
                    )
            }
        }),
{
    if !is_repeat(h, p) {
        let t = turned(h, now);
        let eff = effective_abnormal(p.domains, p.abnormal, suffixes);
        let d = positive(p.domains);
        assert(sums_fit(t.daily, d) <==> forall|k: Seq<char>| #[trigger]
            p.domains.contains_key(k) && p.domains[k] > 0 ==> fits(plus(t.daily, d)[k])) by {
            lemma_positive_sums(t.daily, p.domains);
        }
        assert(sums_fit(t.weekly, d) <==> forall|k: Seq<char>| #[trigger]
            p.domains.contains_key(k) && p.domains[k] > 0 ==> fits(plus(t.weekly, d)[k])) by {
            lemma_positive_sums(t.weekly, p.domains);
        }
        let dev = device_in(h, p.device);
        let node = node_in(h, node_key(p.node));
        lemma_sums(dev.domains, p.domains);
        lemma_sums(node.domains, p.domains);
        lemma_classified_sums(dev.abnormal, eff);
        lemma_classified_sums(node.abnormal, eff);
        lemma_classified_sums(t.daily_abnormal, eff);
        lemma_classified_sums(t.weekly_abnormal, eff);
    }
}

proof fn lemma_sums(m: Map<Seq<char>, int>, d: Map<Seq<char>, int>)
    ensures
        sums_fit(m, d) <==> forall|k: Seq<char>| #[trigger]
            d.contains_key(k) ==> fits(plus(m, d)[k]),
{
    assert forall|k: Seq<char>| #[trigger] d.contains_key(k) implies plus(m, d)[k] == count_of(m, k)
        + d[k] by {}
}

proof fn lemma_positive_sums(m: Map<Seq<char>, int>, d: Map<Seq<char>, int>)
    ensures
        sums_fit(m, positive(d)) <==> forall|k: Seq<char>| #[trigger]
            d.contains_key(k) && d[k] > 0 ==> fits(plus(m, positive(d))[k]),
{
    lemma_sums(m, positive(d));
    assert forall|k: Seq<char>| #[trigger] d.contains_key(k) && d[k] > 0 implies positive(
        d,
    ).contains_key(k) by {}
    assert forall|k: Seq<char>| #[trigger] positive(d).contains_key(k) implies d.contains_key(k)
        && d[k] > 0 by {}
}

proof fn lemma_classified_sums(m: Map<Seq<char>, Classified>, d: Map<Seq<char>, Classified>)
    ensures
        classified_fit(m, d) <==> forall|k: Seq<char>| #[trigger]
            d.contains_key(k) ==> fits(plus_classified(m, d)[k].bytes),
{
    assert forall|k: Seq<char>| #[trigger] d.contains_key(k) implies plus_classified(m, d)[k].bytes
        == bytes_of(m, k) + d[k].bytes by {}
}

/// What a time says is what its fields hold, each under its own name.
pub proof fn times_say_what_they_hold(t: ReportTime)
    ensures
        t.when().timestamp == t.timestamp,
        t.when().date == t.date@,
        t.when().week == t.week,
        t.when().day == t.day,
{
}

} // verus!
