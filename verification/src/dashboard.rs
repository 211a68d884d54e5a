//! What readers are shown of the history: the domains with the most bytes, the devices, and the
//! nodes.

use crate::apply::{
    after_report, has_day, has_week, is_repeat, report_adds_to_its_device, ReportTime, When,
};
use crate::classify::{Classified, ClassifiedDomainDelta};
use crate::history::{DeviceHistory, History, NasTrafficHistory, NodeHistory};
use crate::hosts::{node_key, normalize_node_key};
use crate::order::{
    first_in_order, in_order, order_is_kept, origins, rank_views, rearranges, top,
    top_takes_the_first, Ranked,
};
use crate::quota::BwgServerLiveStatus;
use crate::text::{
    as_i64, chars_of, comes_before, decimal, lemma_text_before_irreflexive, lemma_text_before_total,
    lemma_text_before_transitive, opt_view, parse_i64, same_text, signed_in, text_before, views,
    written_numbers_read_back,
};
use crate::text_map::{fits, running_sums_fit, sum, Model, TextMap};
use crate::foreign::parsed_day_in;
use crate::clock::week_of;
use crate::report::Report;
use vstd::prelude::*;
use vstd::string::StringExecFns;

verus! {

// ---------------------------------------------------------------------------
// The domains with the most bytes
// ---------------------------------------------------------------------------

/// A domain with its bytes, and with its classification where it has one.
#[derive(Debug)]
pub struct ApiTrafficItem {
    pub domain: String,
    pub bytes: i64,
    pub should_proxy: Option<bool>,
    pub category: Option<String>,
    pub reason: Option<String>,
}

/// What an item says.
pub struct Item {
    pub domain: Seq<char>,
    pub bytes: int,
    pub should_proxy: Option<bool>,
    pub category: Option<Seq<char>>,
    pub reason: Option<Seq<char>>,
}

impl Ranked for ApiTrafficItem {
    type V = Item;

    open spec fn rank_view(&self) -> Item {
        Item {
            domain: self.domain@,
            bytes: self.bytes as int,
            should_proxy: self.should_proxy,
            category: opt_view(self.category),
            reason: opt_view(self.reason),
        }
    }

    open spec fn first(a: Item, b: Item) -> bool {
        a.bytes > b.bytes
    }

    proof fn first_is_transitive(a: Item, b: Item, c: Item) {
    }

    proof fn first_is_irreflexive(a: Item) {
    }

    fn goes_first(&self, other: &Self) -> (r: bool) {
        self.bytes > other.bytes
    }
}

/// The domain `k` with `bytes` bytes.
pub open spec fn plain_item(k: Seq<char>, bytes: int) -> Item {
    Item { domain: k, bytes, should_proxy: None, category: None, reason: None }
}

/// The domain `k` with its classified bytes.
pub open spec fn classified_item(k: Seq<char>, c: Classified) -> Item {
    Item {
        domain: k,
        bytes: c.bytes,
        should_proxy: Some(c.verdict.should_proxy),
        category: Some(c.verdict.category),
        reason: Some(c.verdict.reason),
    }
}

/// All domains with their bytes, in the order of the entries.
pub open spec fn plain_items(keys: Seq<Seq<char>>, values: Seq<int>) -> Seq<Item> {
    Seq::new(keys.len(), |i: int| plain_item(keys[i], values[i]))
}

/// All domains with their classified bytes, in the order of the entries.
pub open spec fn classified_items(keys: Seq<Seq<char>>, values: Seq<Classified>) -> Seq<Item> {
    Seq::new(keys.len(), |i: int| classified_item(keys[i], values[i]))
}

/// The item is that of the domain `k` with `bytes` bytes and no classification.
pub open spec fn shows_count(item: ApiTrafficItem, k: Seq<char>, bytes: i64) -> bool {
    &&& item.domain@ == k
    &&& item.bytes == bytes
    &&& item.should_proxy is None
    &&& item.category is None
    &&& item.reason is None
}

/// The item is that of the domain `k` with the bytes and the classification of `d`.
pub open spec fn shows_entry(item: ApiTrafficItem, k: Seq<char>, d: ClassifiedDomainDelta) -> bool {
    &&& item.domain@ == k
    &&& item.bytes == d.bytes
    &&& item.should_proxy == Some(d.should_proxy)
    &&& item.category is Some && item.category->0@ == d.category@
    &&& item.reason is Some && item.reason->0@ == d.reason@
}

/// The items are those of the `n` entries with the most bytes, most bytes first: `p[i]` is the index
/// of the entry that item `i` shows, and the entries that are left out have no more bytes than any
/// that is shown.
pub open spec fn lists_counts(
    items: Seq<ApiTrafficItem>,
    m: TextMap<i64>,
    n: int,
    p: Seq<int>,
) -> bool {
    &&& items.len() == if m.keys().len() < n {
        m.keys().len() as int
    } else {
        n
    }
    &&& rearranges(p, m.keys().len() as int)
    &&& forall|i: int|
        0 <= i < items.len() ==> shows_count(
            #[trigger] items[i],
            m.keys()[p[i]],
            m.entries()[p[i]],
        )
    &&& forall|i: int, j: int|
        0 <= i < j < items.len() ==> (#[trigger] items[i]).bytes >= (#[trigger] items[j]).bytes
    &&& forall|i: int, j: int|
        #![trigger items[i], p[j]]
        0 <= i < items.len() <= j < p.len() ==> m.entries()[p[j]] <= items[i].bytes
}

/// The items are those of the `n` classified entries with the most bytes, most bytes first: `p[i]` is
/// the index of the entry that item `i` shows, and the entries that are left out have no more bytes
/// than any that is shown.
pub open spec fn lists_entries(
    items: Seq<ApiTrafficItem>,
    m: TextMap<ClassifiedDomainDelta>,
    n: int,
    p: Seq<int>,
) -> bool {
    &&& items.len() == if m.keys().len() < n {
        m.keys().len() as int
    } else {
        n
    }
    &&& rearranges(p, m.keys().len() as int)
    &&& forall|i: int|
        0 <= i < items.len() ==> shows_entry(
            #[trigger] items[i],
            m.keys()[p[i]],
            m.entries()[p[i]],
        )
    &&& forall|i: int, j: int|
        0 <= i < j < items.len() ==> (#[trigger] items[i]).bytes >= (#[trigger] items[j]).bytes
    &&& forall|i: int, j: int|
        #![trigger items[i], p[j]]
        0 <= i < items.len() <= j < p.len() ==> m.entries()[p[j]].bytes <= items[i].bytes
}

/// The items are those of the `n` entries with the most bytes.
pub open spec fn lists_most(items: Seq<ApiTrafficItem>, m: TextMap<i64>, n: int) -> bool {
    exists|p: Seq<int>| #[trigger] lists_counts(items, m, n, p)
}

/// The items are those of the `n` classified entries with the most bytes.
pub open spec fn lists_most_entries(
    items: Seq<ApiTrafficItem>,
    m: TextMap<ClassifiedDomainDelta>,
    n: int,
) -> bool {
    exists|p: Seq<int>| #[trigger] lists_entries(items, m, n, p)
}

proof fn lemma_lists_counts(items: Seq<ApiTrafficItem>, m: TextMap<i64>, n: int)
    requires
        n >= 0,
        m.wf(),
        rank_views(items) == top::<ApiTrafficItem>(plain_items(m.keys(), m.values()), n),
    ensures
        lists_most(items, m, n),
{
    let all = plain_items(m.keys(), m.values());
    let p = origins::<ApiTrafficItem>(all);
    top_takes_the_first::<ApiTrafficItem>(all, n);
    let some = top::<ApiTrafficItem>(all, n);
    assert forall|i: int| 0 <= i < items.len() implies shows_count(
        #[trigger] items[i],
        m.keys()[p[i]],
        m.entries()[p[i]],
    ) by {
        assert(rank_views(items)[i] == items[i].rank_view());
        assert(some[i] == all[p[i]]);
        assert(m.values()[p[i]] == m.entries()[p[i]].model());
    }
    assert forall|i: int, j: int| 0 <= i < j < items.len() implies (#[trigger] items[i]).bytes >= (
    #[trigger] items[j]).bytes by {
        assert(rank_views(items)[i] == items[i].rank_view());
        assert(rank_views(items)[j] == items[j].rank_view());
        assert(!ApiTrafficItem::first(some[j], some[i]));
    }
    assert forall|i: int, j: int|
        #![trigger items[i], p[j]]
        0 <= i < items.len() <= j < p.len() implies m.entries()[p[j]] <= items[i].bytes by {
        assert(rank_views(items)[i] == items[i].rank_view());
        assert(!ApiTrafficItem::first(all[p[j]], some[i]));
        assert(m.values()[p[j]] == m.entries()[p[j]].model());
    }
    assert(lists_counts(items, m, n, p));
}

proof fn lemma_lists_entries(
    items: Seq<ApiTrafficItem>,
    m: TextMap<ClassifiedDomainDelta>,
    n: int,
)
    requires
        n >= 0,
        m.wf(),
        rank_views(items) == top::<ApiTrafficItem>(classified_items(m.keys(), m.values()), n),
    ensures
        lists_most_entries(items, m, n),
{
    let all = classified_items(m.keys(), m.values());
    let p = origins::<ApiTrafficItem>(all);
    top_takes_the_first::<ApiTrafficItem>(all, n);
    let some = top::<ApiTrafficItem>(all, n);
    assert forall|i: int| 0 <= i < items.len() implies shows_entry(
        #[trigger] items[i],
        m.keys()[p[i]],
        m.entries()[p[i]],
    ) by {
        assert(rank_views(items)[i] == items[i].rank_view());
        assert(some[i] == all[p[i]]);
        assert(m.values()[p[i]] == m.entries()[p[i]].model());
    }
    assert forall|i: int, j: int| 0 <= i < j < items.len() implies (#[trigger] items[i]).bytes >= (
    #[trigger] items[j]).bytes by {
        assert(rank_views(items)[i] == items[i].rank_view());
        assert(rank_views(items)[j] == items[j].rank_view());
        assert(!ApiTrafficItem::first(some[j], some[i]));
    }
    assert forall|i: int, j: int|
        #![trigger items[i], p[j]]
        0 <= i < items.len() <= j < p.len() implies m.entries()[p[j]].bytes <= items[i].bytes by {
        assert(rank_views(items)[i] == items[i].rank_view());
        assert(!ApiTrafficItem::first(all[p[j]], some[i]));
        assert(m.values()[p[j]] == m.entries()[p[j]].model());
    }
    assert(lists_entries(items, m, n, p));
}

/// The `n` domains with the most bytes.
pub fn top_domains(m: &TextMap<i64>, n: usize) -> (r: Vec<ApiTrafficItem>)
    ensures
        rank_views(r@) == top::<ApiTrafficItem>(plain_items(m.keys(), m.values()), n as int),
        lists_most(r@, *m, n as int),
{
    let count: usize = m.len();
    let mut items: Vec<ApiTrafficItem> = Vec::new();
    for i in 0..count
        invariant
            count == m.keys().len(),
            m.wf(),
            items@.len() == i,
            forall|j: int|
                0 <= j < i ==> (#[trigger] items@[j]).rank_view() == plain_item(
                    m.keys()[j],
                    m.values()[j],
                ),
    {
        items.push(
            ApiTrafficItem {
                domain: m.key_at(i).clone(),
                bytes: *m.value_at(i),
                should_proxy: None,
                category: None,
                reason: None,
            },
        );
    }
    assert(rank_views(items@) =~= plain_items(m.keys(), m.values()));
    let r = first_in_order(items, n);
    proof {
        lemma_lists_counts(r@, *m, n as int);
    }
    r
}

/// The `n` classified domains with the most bytes.
pub fn top_classified(m: &TextMap<ClassifiedDomainDelta>, n: usize) -> (r: Vec<ApiTrafficItem>)
    ensures
        rank_views(r@) == top::<ApiTrafficItem>(classified_items(m.keys(), m.values()), n as int),
        lists_most_entries(r@, *m, n as int),
        m.wf(),
{
    let count: usize = m.len();
    let mut items: Vec<ApiTrafficItem> = Vec::new();
    for i in 0..count
        invariant
            count == m.keys().len(),
            m.wf(),
            items@.len() == i,
            forall|j: int|
                0 <= j < i ==> (#[trigger] items@[j]).rank_view() == classified_item(
                    m.keys()[j],
                    m.values()[j],
                ),
    {
        let d = m.value_at(i);
        items.push(
            ApiTrafficItem {
                domain: m.key_at(i).clone(),
                bytes: d.bytes,
                should_proxy: Some(d.should_proxy),
                category: Some(d.category.clone()),
                reason: Some(d.reason.clone()),
            },
        );
    }
    assert(rank_views(items@) =~= classified_items(m.keys(), m.values()));
    let r = first_in_order(items, n);
    proof {
        lemma_lists_entries(r@, *m, n as int);
    }
    r
}

/// The ten domains with the most bytes of this day and of this week, and those that should have
/// gone direct.
pub struct ApiTrafficResponse {
    pub daily: Vec<ApiTrafficItem>,
    pub weekly: Vec<ApiTrafficItem>,
    pub abnormal_daily: Vec<ApiTrafficItem>,
    pub abnormal_weekly: Vec<ApiTrafficItem>,
}

/// The ten domains with the most bytes, or none where they are not to be shown.
pub open spec fn shown_domains(m: TextMap<i64>, show: bool) -> Seq<Item> {
    if show {
        top::<ApiTrafficItem>(plain_items(m.keys(), m.values()), 10)
    } else {
        Seq::empty()
    }
}

/// The ten classified domains with the most bytes, or none where they are not to be shown.
pub open spec fn shown_classified(m: TextMap<ClassifiedDomainDelta>, show: bool) -> Seq<Item> {
    if show {
        top::<ApiTrafficItem>(classified_items(m.keys(), m.values()), 10)
    } else {
        Seq::empty()
    }
}

fn list_domains(m: &TextMap<i64>, show: bool) -> (r: Vec<ApiTrafficItem>)
    ensures
        rank_views(r@) == shown_domains(*m, show),
        show ==> lists_most(r@, *m, 10),
        !show ==> r@.len() == 0,
{
    if show {
        top_domains(m, 10)
    } else {
        let none: Vec<ApiTrafficItem> = Vec::new();
        assert(rank_views(none@) =~= Seq::<Item>::empty());
        none
    }
}

fn list_classified(m: &TextMap<ClassifiedDomainDelta>, show: bool) -> (r: Vec<ApiTrafficItem>)
    ensures
        rank_views(r@) == shown_classified(*m, show),
        show ==> lists_most_entries(r@, *m, 10),
        !show ==> r@.len() == 0,
{
    if show {
        top_classified(m, 10)
    } else {
        let none: Vec<ApiTrafficItem> = Vec::new();
        assert(rank_views(none@) =~= Seq::<Item>::empty());
        none
    }
}

/// The ten domains with the most bytes of this day and of this week, and those that should have
/// gone direct. What was counted on another day than that of `now`, or in another week, is not
/// shown.
pub fn api_traffic(history: &NasTrafficHistory, now: &ReportTime) -> (r: ApiTrafficResponse)
    ensures
        ({
            let day = has_day(history.history(), now.when());
            let week = has_week(history.history(), now.when());
            &&& rank_views(r.daily@) == shown_domains(history.daily_api_traffic, day)
            &&& rank_views(r.weekly@) == shown_domains(history.weekly_api_traffic, week)
            &&& rank_views(r.abnormal_daily@) == shown_classified(
                history.daily_abnormal_traffic,
                day,
            )
            &&& rank_views(r.abnormal_weekly@) == shown_classified(
                history.weekly_abnormal_traffic,
                week,
            )
        }),
        history.daily_api_date@ != now.date@ ==> r.daily@.len() == 0 && r.abnormal_daily@.len()
            == 0,
        history.daily_api_date@ == now.date@ ==> {
            &&& lists_most(r.daily@, history.daily_api_traffic, 10)
            &&& lists_most_entries(r.abnormal_daily@, history.daily_abnormal_traffic, 10)
        },
        ({
            let stored = parsed_day_in(history.daily_api_date@, "%Y-%m-%d"@);
            if history.weekly_api_week == now.week && (stored is Some ==> week_of(stored->0 as int)
                == week_of(now.day as int)) {
                &&& lists_most(r.weekly@, history.weekly_api_traffic, 10)
                &&& lists_most_entries(r.abnormal_weekly@, history.weekly_abnormal_traffic, 10)
            } else {
                r.weekly@.len() == 0 && r.abnormal_weekly@.len() == 0
            }
        }),
{
    let day = history.is_of_day(now);
    let week = history.is_of_week(now);
    proof {
        let stored = parsed_day_in(history.daily_api_date@, "%Y-%m-%d"@);
        assert(week == (history.weekly_api_week == now.week && (stored is Some ==> week_of(
            stored->0 as int,
        ) == week_of(now.day as int))));
    }
    let daily = list_domains(&history.daily_api_traffic, day);
    let weekly = list_domains(&history.weekly_api_traffic, week);
    let abnormal_daily = list_classified(&history.daily_abnormal_traffic, day);
    let abnormal_weekly = list_classified(&history.weekly_abnormal_traffic, week);
    assert(day == (history.daily_api_date@ == now.date@));
    ApiTrafficResponse { daily, weekly, abnormal_daily, abnormal_weekly }
}

// ---------------------------------------------------------------------------
// Devices
// ---------------------------------------------------------------------------

/// For how many seconds a device counts as online after it was last seen, from the setting.
pub open spec fn online_seconds_by(setting: Option<Seq<char>>) -> i64 {
    match setting {
        Some(text) => match as_i64(signed_in(text)) {
            Some(n) => n,
            None => 90,
        },
        None => 90,
    }
}

/// For how many seconds a device counts as online after it was last seen.
pub fn device_online_threshold_secs(setting: &Option<String>) -> (r: i64)
    ensures
        r == online_seconds_by(opt_view(*setting)),
{
    match setting {
        Some(text) => {
            let v = chars_of(text.as_str());
            match parse_i64(v.as_slice()) {
                Some(n) => n,
                None => 90,
            }
        },
        None => 90,
    }
}

/// What readers are shown of a device.
pub struct DeviceResponseInfo {
    pub name: String,
    pub total_download: i64,
    pub total_upload: i64,
    pub total_abnormal_proxy: i64,
    pub last_seen: i64,
    pub current_node: String,
    pub online: bool,
    pub top_abnormal_domains: Vec<ApiTrafficItem>,
}

/// What is said of a device to its readers.
pub struct DeviceInfo {
    pub name: Seq<char>,
    pub download: int,
    pub upload: int,
    pub abnormal: int,
    pub last_seen: int,
    pub node: Seq<char>,
    pub online: bool,
    pub top_abnormal: Seq<Item>,
}

impl Ranked for DeviceResponseInfo {
    type V = DeviceInfo;

    open spec fn rank_view(&self) -> DeviceInfo {
        DeviceInfo {
            name: self.name@,
            download: self.total_download as int,
            upload: self.total_upload as int,
            abnormal: self.total_abnormal_proxy as int,
            last_seen: self.last_seen as int,
            node: self.current_node@,
            online: self.online,
            top_abnormal: rank_views(self.top_abnormal_domains@),
        }
    }

    open spec fn first(a: DeviceInfo, b: DeviceInfo) -> bool {
        text_before(a.name, b.name)
    }

    proof fn first_is_transitive(a: DeviceInfo, b: DeviceInfo, c: DeviceInfo) {
        lemma_text_before_transitive(a.name, b.name, c.name);
    }

    proof fn first_is_irreflexive(a: DeviceInfo) {
        lemma_text_before_irreflexive(a.name);
    }

    fn goes_first(&self, other: &Self) -> (r: bool) {
        comes_before(self.name.as_str(), other.name.as_str())
    }
}

/// The time since a device was last seen is an `i64`.
pub open spec fn ages_fit(devices: Seq<DeviceHistory>, now: int) -> bool {
    forall|i: int| 0 <= i < devices.len() ==> fits(now - (#[trigger] devices[i]).last_seen)
}

/// What is said of a device: its record, whether it was seen less than `threshold` seconds ago,
/// and the five domains with the most bytes that should have gone direct.
pub open spec fn info_on(name: Seq<char>, dev: DeviceHistory, now: int, threshold: int) -> DeviceInfo {
    DeviceInfo {
        name,
        download: dev.total_download as int,
        upload: dev.total_upload as int,
        abnormal: dev.total_abnormal_proxy as int,
        last_seen: dev.last_seen as int,
        node: dev.current_node@,
        online: now - dev.last_seen < threshold,
        top_abnormal: top::<ApiTrafficItem>(
            classified_items(
                dev.abnormal_domain_traffic.keys(),
                dev.abnormal_domain_traffic.values(),
            ),
            5,
        ),
    }
}

/// What is said of all devices, in the order of the entries.
pub open spec fn infos_on(
    names: Seq<Seq<char>>,
    devices: Seq<DeviceHistory>,
    now: int,
    threshold: int,
) -> Seq<DeviceInfo> {
    Seq::new(names.len(), |i: int| info_on(names[i], devices[i], now, threshold))
}

/// Whether the time since each device was last seen is an `i64`.
pub fn can_show_devices(history: &NasTrafficHistory, now: i64) -> (r: bool)
    ensures
        r == ages_fit(history.devices.entries(), now as int),
{
    let n: usize = history.devices.len();
    let ghost devices = history.devices.entries();
    for i in 0..n
        invariant
            n == history.devices.keys().len(),
            n == devices.len(),
            devices == history.devices.entries(),
            forall|j: int| 0 <= j < i ==> fits(now - (#[trigger] devices[j]).last_seen),
    {
        let dev = history.devices.value_at(i);
        if now.checked_sub(dev.last_seen).is_none() {
            assert(!fits(now - devices[i as int].last_seen));
            return false;
        }
    }
    true
}

/// The item shows the record of the device `name`: its own numbers, its node, whether it was seen
/// less than `threshold` seconds ago, and the five domains with the most bytes that should have gone
/// direct.
pub open spec fn shows_device(
    info: DeviceResponseInfo,
    name: Seq<char>,
    dev: DeviceHistory,
    now: i64,
    threshold: i64,
) -> bool {
    &&& info.name@ == name
    &&& info.total_download == dev.total_download
    &&& info.total_upload == dev.total_upload
    &&& info.total_abnormal_proxy == dev.total_abnormal_proxy
    &&& info.last_seen == dev.last_seen
    &&& info.current_node@ == dev.current_node@
    &&& info.online <==> now - dev.last_seen < threshold
    &&& lists_most_entries(info.top_abnormal_domains@, dev.abnormal_domain_traffic, 5)
}

/// An item that says of a device what its record says shows the record.
proof fn lemma_shows_device(
    info: DeviceResponseInfo,
    name: Seq<char>,
    dev: DeviceHistory,
    now: i64,
    threshold: i64,
)
    requires
        info.rank_view() == info_on(name, dev, now as int, threshold as int),
        dev.abnormal_domain_traffic.wf(),
    ensures
        shows_device(info, name, dev, now, threshold),
{
    lemma_lists_entries(info.top_abnormal_domains@, dev.abnormal_domain_traffic, 5);
}

fn device_info(name: &String, dev: &DeviceHistory, now: i64, threshold: i64) -> (r:
    DeviceResponseInfo)
    requires
        fits(now - dev.last_seen),
    ensures
        r.rank_view() == info_on(name@, *dev, now as int, threshold as int),
        shows_device(r, name@, *dev, now, threshold),
        dev.abnormal_domain_traffic.wf(),
{
    let top_abnormal_domains = top_classified(&dev.abnormal_domain_traffic, 5);
    DeviceResponseInfo {
        name: name.clone(),
        total_download: dev.total_download,
        total_upload: dev.total_upload,
        total_abnormal_proxy: dev.total_abnormal_proxy,
        last_seen: dev.last_seen,
        current_node: dev.current_node.clone(),
        online: now - dev.last_seen < threshold,
        top_abnormal_domains,
    }
}

/// What readers are shown of the devices, in the order of their names.
pub fn device_list(history: &NasTrafficHistory, now: i64, threshold: i64) -> (r: Vec<
    DeviceResponseInfo,
>)
    requires
        ages_fit(history.devices.entries(), now as int),
    ensures
        rank_views(r@) == in_order::<DeviceResponseInfo>(
            infos_on(
                history.devices.keys(),
                history.devices.entries(),
                now as int,
                threshold as int,
            ),
        ),
        r@.len() == history.devices.keys().len(),
        forall|i: int, j: int|
            0 <= i < j < r@.len() ==> text_before(
                (#[trigger] r@[i]).name@,
                (#[trigger] r@[j]).name@,
            ),
        forall|k: int|
            0 <= k < history.devices.keys().len() ==> exists|i: int|
                0 <= i < r@.len() && shows_device(
                    #[trigger] r@[i],
                    #[trigger] history.devices.keys()[k],
                    history.devices.entries()[k],
                    now,
                    threshold,
                ),
{
    let n: usize = history.devices.len();
    let ghost names = history.devices.keys();
    let ghost devices = history.devices.entries();
    let mut list: Vec<DeviceResponseInfo> = Vec::new();
    for i in 0..n
        invariant
            n == names.len(),
            n == devices.len(),
            names == history.devices.keys(),
            devices == history.devices.entries(),
            ages_fit(devices, now as int),
            list@.len() == i,
            forall|j: int|
                0 <= j < i ==> (#[trigger] devices[j]).abnormal_domain_traffic.wf(),
            forall|j: int|
                0 <= j < i ==> (#[trigger] list@[j]).rank_view() == info_on(
                    names[j],
                    devices[j],
                    now as int,
                    threshold as int,
                ),
    {
        let name = history.devices.key_at(i);
        let dev = history.devices.value_at(i);
        assert(fits(now - devices[i as int].last_seen));
        list.push(device_info(name, dev, now, threshold));
    }
    proof {
        assert(rank_views(list@) =~= infos_on(names, devices, now as int, threshold as int));
        order_is_kept::<DeviceResponseInfo>(rank_views(list@));
    }
    let r = first_in_order(list, n);
    proof {
        let all = infos_on(names, devices, now as int, threshold as int);
        let p = origins::<DeviceResponseInfo>(all);
        top_takes_the_first::<DeviceResponseInfo>(all, n as int);
        assert forall|i: int| 0 <= i < r@.len() implies (#[trigger] r@[i]).rank_view() == info_on(
            names[p[i]],
            devices[p[i]],
            now as int,
            threshold as int,
        ) by {
            assert(rank_views(r@)[i] == r@[i].rank_view());
            assert(rank_views(r@)[i] == all[p[i]]);
        }
        assert forall|i: int, j: int| 0 <= i < j < r@.len() implies text_before(
            (#[trigger] r@[i]).name@,
            (#[trigger] r@[j]).name@,
        ) by {
            assert(rank_views(r@)[i] == r@[i].rank_view());
            assert(rank_views(r@)[j] == r@[j].rank_view());
            assert(!DeviceResponseInfo::first(rank_views(r@)[j], rank_views(r@)[i]));
            assert(p[i] != p[j]);
            assert(names[p[i]] != names[p[j]]);
            lemma_text_before_total(r@[i].name@, r@[j].name@);
        }
        assert forall|k: int| 0 <= k < names.len() implies exists|i: int|
            0 <= i < r@.len() && shows_device(
                #[trigger] r@[i],
                #[trigger] names[k],
                devices[k],
                now,
                threshold,
            ) by {
            assert(p.contains(k));
            let i = choose|i: int| 0 <= i < p.len() && p[i] == k;
            lemma_shows_device(r@[i], names[k], devices[k], now, threshold);
        }
    }
    r
}

// ---------------------------------------------------------------------------
// Nodes
// ---------------------------------------------------------------------------

/// What readers are shown of a node.
pub struct NodeResponseInfo {
    pub name: String,
    pub ip: String,
    pub official_used: i64,
    pub official_limit: i64,
    pub next_reset: i64,
    pub client_accumulated: i64,
    pub client_abnormal: i64,
    pub active_devices: Vec<String>,
}

/// What is said of a node to its readers.
#[verifier::ext_equal]
pub struct NodeInfo {
    pub name: Seq<char>,
    pub ip: Seq<char>,
    pub used: int,
    pub limit: int,
    pub next_reset: int,
    pub accumulated: int,
    pub abnormal: int,
    pub active: Seq<Seq<char>>,
}

impl Ranked for NodeResponseInfo {
    type V = NodeInfo;

    open spec fn rank_view(&self) -> NodeInfo {
        NodeInfo {
            name: self.name@,
            ip: self.ip@,
            used: self.official_used as int,
            limit: self.official_limit as int,
            next_reset: self.next_reset as int,
            accumulated: self.client_accumulated as int,
            abnormal: self.client_abnormal as int,
            active: views(self.active_devices@),
        }
    }

    open spec fn first(a: NodeInfo, b: NodeInfo) -> bool {
        text_before(a.name, b.name)
    }

    proof fn first_is_transitive(a: NodeInfo, b: NodeInfo, c: NodeInfo) {
        lemma_text_before_transitive(a.name, b.name, c.name);
    }

    proof fn first_is_irreflexive(a: NodeInfo) {
        lemma_text_before_irreflexive(a.name);
    }

    fn goes_first(&self, other: &Self) -> (r: bool) {
        comes_before(self.name.as_str(), other.name.as_str())
    }
}

/// The bytes of classified entries.
pub open spec fn entry_bytes(values: Seq<Classified>) -> Seq<int> {
    values.map_values(|c: Classified| c.bytes)
}

/// The sums of the bytes of a node are all `i64`.
pub open spec fn node_sums_fit(node: NodeHistory) -> bool {
    fits(node.total_download + node.total_upload) && running_sums_fit(
        entry_bytes(node.abnormal_domain_traffic.values()),
    )
}

/// All bytes of a node and those that should have gone direct, none where nothing is kept of it.
pub open spec fn node_bytes(node: Option<NodeHistory>) -> (int, int) {
    match node {
        Some(n) => (
            n.total_download + n.total_upload,
            sum(entry_bytes(n.abnormal_domain_traffic.values())),
        ),
        None => (0, 0),
    }
}

/// The device is at the node, and was seen less than `threshold` seconds ago.
pub open spec fn is_active_at(dev: DeviceHistory, ip: Seq<char>, now: int, threshold: int) -> bool {
    node_key(dev.current_node@) == ip && now - dev.last_seen < threshold
}

/// The names of the devices that are active at the node, in the order of the entries.
pub open spec fn active_at(
    names: Seq<Seq<char>>,
    devices: Seq<DeviceHistory>,
    ip: Seq<char>,
    now: int,
    threshold: int,
) -> Seq<Seq<char>>
    decreases names.len(),
{
    if names.len() == 0 {
        Seq::empty()
    } else {
        let before = active_at(names.drop_last(), devices.drop_last(), ip, now, threshold);
        if is_active_at(devices.last(), ip, now, threshold) {
            before.push(names.last())
        } else {
            before
        }
    }
}

/// The time since each device at the node was last seen is an `i64`.
pub open spec fn ages_at_fit(devices: Seq<DeviceHistory>, ip: Seq<char>, now: int) -> bool {
    forall|i: int|
        0 <= i < devices.len() && node_key((#[trigger] devices[i]).current_node@) == ip ==> fits(
            now - devices[i].last_seen,
        )
}

/// What is said of a server of the provider.
pub open spec fn server_info(
    server: BwgServerLiveStatus,
    history: NasTrafficHistory,
    now: int,
    threshold: int,
) -> NodeInfo {
    let bytes = node_bytes(history.nodes.lookup(server.ip@));
    NodeInfo {
        name: server.name@,
        ip: server.ip@,
        used: server.official_used_bytes as int,
        limit: server.official_limit_bytes as int,
        next_reset: server.next_reset_time as int,
        accumulated: bytes.0,
        abnormal: bytes.1,
        active: active_at(
            history.devices.keys(),
            history.devices.entries(),
            server.ip@,
            now,
            threshold,
        ),
    }
}

/// What is said of a node that is no known server of the provider.
pub open spec fn unmatched_info(ip: Seq<char>, node: NodeHistory) -> NodeInfo {
    NodeInfo {
        name: "未匹配服务器 ("@ + ip + ")"@,
        ip,
        used: 0,
        limit: 0,
        next_reset: 0,
        accumulated: node_bytes(Some(node)).0,
        abnormal: node_bytes(Some(node)).1,
        active: Seq::empty(),
    }
}

/// What is said of the servers of the provider; where none is known, of all nodes of the history.
pub open spec fn node_infos(
    servers: Seq<BwgServerLiveStatus>,
    history: NasTrafficHistory,
    now: int,
    threshold: int,
) -> Seq<NodeInfo> {
    if servers.len() > 0 {
        Seq::new(servers.len(), |i: int| server_info(servers[i], history, now, threshold))
    } else {
        Seq::new(
            history.nodes.keys().len(),
            |i: int| unmatched_info(history.nodes.keys()[i], history.nodes.entries()[i]),
        )
    }
}

/// Every number that is needed of a server is an `i64`.
pub open spec fn server_fits(server: BwgServerLiveStatus, history: NasTrafficHistory, now: int) -> bool {
    &&& history.nodes.lookup(server.ip@) matches Some(n) ==> node_sums_fit(n)
    &&& ages_at_fit(history.devices.entries(), server.ip@, now)
}

/// Every number that is needed of the nodes is an `i64`.
pub open spec fn node_infos_fit(
    servers: Seq<BwgServerLiveStatus>,
    history: NasTrafficHistory,
    now: int,
) -> bool {
    if servers.len() > 0 {
        forall|i: int| 0 <= i < servers.len() ==> server_fits(#[trigger] servers[i], history, now)
    } else {
        forall|i: int|
            0 <= i < history.nodes.entries().len() ==> node_sums_fit(
                #[trigger] history.nodes.entries()[i],
            )
    }
}

/// The sum of the bytes of all entries, if every sum on the way is an `i64`.
fn checked_bytes(m: &TextMap<ClassifiedDomainDelta>) -> (r: Option<i64>)
    ensures
        match r {
            Some(t) => running_sums_fit(entry_bytes(m.values())) && t == sum(
                entry_bytes(m.values()),
            ),
            None => !running_sums_fit(entry_bytes(m.values())),
        },
        m.wf(),
{
    let n: usize = m.len();
    let ghost all = entry_bytes(m.values());
    let mut t: i64 = 0;
    for i in 0..n
        invariant
            n == m.keys().len(),
            n == all.len(),
            m.wf(),
            all == entry_bytes(m.values()),
            t == sum(all.take(i as int)),
            forall|j: int| 0 <= j <= i ==> fits(#[trigger] sum(all.take(j))),
    {
        let v = m.value_at(i);
        proof {
            let next = all.take(i as int + 1);
            assert(next.drop_last() =~= all.take(i as int));
            assert(next.last() == v.bytes);
        }
        match t.checked_add(v.bytes) {
            Some(next) => {
                t = next;
            },
            None => {
                assert(!fits(sum(all.take(i as int + 1))));
                return None;
            },
        }
    }
    assert(all.take(n as int) =~= all);
    Some(t)
}

/// All bytes of a node and those that should have gone direct, if every sum is an `i64`.
fn checked_node_bytes(node: &NodeHistory) -> (r: Option<(i64, i64)>)
    ensures
        match r {
            Some((a, b)) => node_sums_fit(*node) && (a as int, b as int) == node_bytes(Some(*node))
                && node.abnormal_domain_traffic.wf(),
            None => !node_sums_fit(*node),
        },
{
    match node.total_download.checked_add(node.total_upload) {
        None => None,
        Some(a) => match checked_bytes(&node.abnormal_domain_traffic) {
            None => None,
            Some(b) => Some((a, b)),
        },
    }
}

/// The names of the devices that are active at the node, if every time since one was last seen is
/// an `i64`.
fn checked_active(devices: &TextMap<DeviceHistory>, ip: &str, now: i64, threshold: i64) -> (r:
    Option<Vec<String>>)
    ensures
        match r {
            Some(list) => ages_at_fit(devices.entries(), ip@, now as int) && views(list@)
                == active_at(
                devices.keys(),
                devices.entries(),
                ip@,
                now as int,
                threshold as int,
            ),
            None => !ages_at_fit(devices.entries(), ip@, now as int),
        },
        devices.wf(),
{
    let n: usize = devices.len();
    let ghost names = devices.keys();
    let ghost all = devices.entries();
    let mut out: Vec<String> = Vec::new();
    proof {
        assert(names.take(0) =~= Seq::<Seq<char>>::empty());
        assert(views(out@) =~= Seq::<Seq<char>>::empty());
    }
    for i in 0..n
        invariant
            n == names.len(),
            n == all.len(),
            names == devices.keys(),
            all == devices.entries(),
            forall|j: int|
                0 <= j < i && node_key((#[trigger] all[j]).current_node@) == ip@ ==> fits(
                    now - all[j].last_seen,
                ),
            views(out@) == active_at(
                names.take(i as int),
                all.take(i as int),
                ip@,
                now as int,
                threshold as int,
            ),
    {
        let dev = devices.value_at(i);
        let name = devices.key_at(i);
        let key = normalize_node_key(dev.current_node.as_str());
        proof {
            assert(names.take(i as int + 1).drop_last() =~= names.take(i as int));
            assert(all.take(i as int + 1).drop_last() =~= all.take(i as int));
        }
        if same_text(key.as_str(), ip) {
            match now.checked_sub(dev.last_seen) {
                None => {
                    assert(!fits(now - all[i as int].last_seen));
                    return None;
                },
                Some(age) => {
                    if age < threshold {
                        let ghost before = views(out@);
                        out.push(name.clone());
                        assert(views(out@) =~= before.push(name@));
                    }
                },
            }
        }
    }
    assert(names.take(n as int) =~= names);
    assert(all.take(n as int) =~= all);
    Some(out)
}

/// What is kept under the address `ip` is sound.
spec fn node_is_sound(ip: Seq<char>, history: NasTrafficHistory) -> bool {
    &&& history.nodes.wf()
    &&& history.devices.wf()
    &&& history.nodes.lookup(ip) matches Some(n) ==> n.abnormal_domain_traffic.wf()
}

/// What readers are shown of a server of the provider, if every number is an `i64`.
fn checked_server_info(
    server: &BwgServerLiveStatus,
    history: &NasTrafficHistory,
    now: i64,
    threshold: i64,
) -> (r: Option<NodeResponseInfo>)
    ensures
        match r {
            Some(info) => server_fits(*server, *history, now as int) && info.rank_view()
                == server_info(*server, *history, now as int, threshold as int) && node_is_sound(
                server.ip@,
                *history,
            ),
            None => !server_fits(*server, *history, now as int),
        },
{
    let bytes = match history.nodes.get(server.ip.as_str()) {
        None => (0, 0),
        Some(node) => match checked_node_bytes(node) {
            None => {
                return None;
            },
            Some(b) => b,
        },
    };
    match checked_active(&history.devices, server.ip.as_str(), now, threshold) {
        None => None,
        Some(active_devices) => Some(
            NodeResponseInfo {
                name: server.name.clone(),
                ip: server.ip.clone(),
                official_used: server.official_used_bytes,
                official_limit: server.official_limit_bytes,
                next_reset: server.next_reset_time,
                client_accumulated: bytes.0,
                client_abnormal: bytes.1,
                active_devices,
            },
        ),
    }
}

/// What readers are shown of a node that is no known server, if every number is an `i64`.
fn checked_unmatched_info(ip: &String, node: &NodeHistory) -> (r: Option<NodeResponseInfo>)
    ensures
        match r {
            Some(info) => node_sums_fit(*node) && info.rank_view() == unmatched_info(ip@, *node)
                && node.abnormal_domain_traffic.wf(),
            None => !node_sums_fit(*node),
        },
{
    match checked_node_bytes(node) {
        None => None,
        Some((accumulated, abnormal)) => {
            let info = NodeResponseInfo {
                name: "未匹配服务器 (".to_owned().concat(ip.as_str()).concat(")"),
                ip: ip.clone(),
                official_used: 0,
                official_limit: 0,
                next_reset: 0,
                client_accumulated: accumulated,
                client_abnormal: abnormal,
                active_devices: Vec::new(),
            };
            assert(info.rank_view() =~= unmatched_info(ip@, *node));
            Some(info)
        },
    }
}

/// What readers are shown of the nodes, in the order of their names, if every number is an `i64`.
fn checked_node_list(
    servers: &Vec<BwgServerLiveStatus>,
    history: &NasTrafficHistory,
    now: i64,
    threshold: i64,
) -> (r: Option<Vec<NodeResponseInfo>>)
    ensures
        match r {
            Some(list) => node_infos_fit(servers@, *history, now as int) && rank_views(list@)
                == in_order::<NodeResponseInfo>(
                node_infos(servers@, *history, now as int, threshold as int),
            ) && shows_nodes(list@, servers@, *history, now, threshold),
            None => !node_infos_fit(servers@, *history, now as int),
        },
{
    let ghost all = node_infos(servers@, *history, now as int, threshold as int);
    let mut list: Vec<NodeResponseInfo> = Vec::new();
    if servers.len() > 0 {
        for i in 0..servers.len()
            invariant
                servers@.len() > 0,
                all == node_infos(servers@, *history, now as int, threshold as int),
                list@.len() == i,
                forall|j: int| 0 <= j < i ==> (#[trigger] list@[j]).rank_view() == all[j],
                forall|j: int|
                    0 <= j < i ==> server_fits(#[trigger] servers@[j], *history, now as int)
                        && node_is_sound(servers@[j].ip@, *history),
        {
            match checked_server_info(&servers[i], history, now, threshold) {
                None => {
                    assert(!server_fits(servers@[i as int], *history, now as int));
                    return None;
                },
                Some(info) => {
                    assert(server_fits(servers@[i as int], *history, now as int));
                    list.push(info);
                },
            }
        }
    } else {
        let n: usize = history.nodes.len();
        for i in 0..n
            invariant
                servers@.len() == 0,
                n == history.nodes.keys().len(),
                n == history.nodes.entries().len(),
                all == node_infos(servers@, *history, now as int, threshold as int),
                list@.len() == i,
                forall|j: int| 0 <= j < i ==> (#[trigger] list@[j]).rank_view() == all[j],
                forall|j: int|
                    0 <= j < i ==> node_sums_fit(#[trigger] history.nodes.entries()[j])
                        && history.nodes.entries()[j].abnormal_domain_traffic.wf(),
        {
            match checked_unmatched_info(history.nodes.key_at(i), history.nodes.value_at(i)) {
                None => {
                    assert(!node_sums_fit(history.nodes.entries()[i as int]));
                    return None;
                },
                Some(info) => {
                    assert(node_sums_fit(history.nodes.entries()[i as int]));
                    list.push(info);
                },
            }
        }
    }
    assert(rank_views(list@) =~= all);
    proof {
        order_is_kept::<NodeResponseInfo>(all);
    }
    let n: usize = list.len();
    let r = first_in_order(list, n);
    proof {
        let p = origins::<NodeResponseInfo>(all);
        top_takes_the_first::<NodeResponseInfo>(all, n as int);
        assert forall|i: int| 0 <= i < r@.len() implies (#[trigger] r@[i]).rank_view()
            == all[p[i]] by {
            assert(rank_views(r@)[i] == r@[i].rank_view());
            assert(rank_views(r@)[i] == all[p[i]]);
        }
        assert forall|i: int, j: int| 0 <= i < j < r@.len() implies !text_before(
            (#[trigger] r@[j]).name@,
            (#[trigger] r@[i]).name@,
        ) by {
            assert(rank_views(r@)[i] == r@[i].rank_view());
            assert(rank_views(r@)[j] == r@[j].rank_view());
            assert(!NodeResponseInfo::first(rank_views(r@)[j], rank_views(r@)[i]));
        }
        if servers@.len() > 0 {
            assert forall|i: int| 0 <= i < r@.len() implies shows_server(
                #[trigger] r@[i],
                servers@[p[i]],
                *history,
                now,
                threshold,
            ) by {
                lemma_shows_server(r@[i], servers@[p[i]], *history, now, threshold);
            }
        } else {
            assert forall|i: int| 0 <= i < r@.len() implies shows_unmatched(
                #[trigger] r@[i],
                history.nodes.keys()[p[i]],
                history.nodes.entries()[p[i]],
            ) by {
                lemma_shows_totals(r@[i], history.nodes.entries()[p[i]]);
                assert(views(r@[i].active_devices@).len() == 0);
            }
        }
        assert(lists_nodes(r@, servers@, *history, now, threshold, p));
    }
    Some(r)
}

/// The item shows the server: its own name, address and numbers, all bytes that are kept under its
/// address and those that should have gone direct, and exactly the devices that are at it and were
/// seen less than `threshold` seconds ago.
pub open spec fn shows_server(
    info: NodeResponseInfo,
    server: BwgServerLiveStatus,
    history: NasTrafficHistory,
    now: i64,
    threshold: i64,
) -> bool {
    &&& info.name@ == server.name@
    &&& info.ip@ == server.ip@
    &&& info.official_used == server.official_used_bytes
    &&& info.official_limit == server.official_limit_bytes
    &&& info.next_reset == server.next_reset_time
    &&& !history.nodes.keys().contains(server.ip@) ==> info.client_accumulated == 0
        && info.client_abnormal == 0
    &&& forall|k: int|
        0 <= k < history.nodes.keys().len() && #[trigger] history.nodes.keys()[k] == server.ip@
            ==> shows_totals(info, history.nodes.entries()[k])
    &&& views(info.active_devices@).no_duplicates()
    &&& forall|name: Seq<char>| #[trigger]
        views(info.active_devices@).contains(name) ==> history.devices.keys().contains(name)
    &&& forall|k: int|
        0 <= k < history.devices.keys().len() ==> (views(info.active_devices@).contains(
            #[trigger] history.devices.keys()[k],
        ) <==> node_key(history.devices.entries()[k].current_node@) == server.ip@ && now
            - history.devices.entries()[k].last_seen < threshold)
}

/// The item shows the download and the upload of the node together, and the sum of the bytes that
/// should have gone direct.
pub open spec fn shows_totals(info: NodeResponseInfo, node: NodeHistory) -> bool {
    &&& info.client_accumulated == node.total_download + node.total_upload
    &&& info.client_abnormal == sum(
        node.abnormal_domain_traffic.entries().map_values(
            |d: ClassifiedDomainDelta| d.bytes as int,
        ),
    )
}

/// The item shows a node that is no known server of the provider.
pub open spec fn shows_unmatched(info: NodeResponseInfo, ip: Seq<char>, node: NodeHistory) -> bool {
    &&& info.name@ == "未匹配服务器 ("@ + ip + ")"@
    &&& info.ip@ == ip
    &&& info.official_used == 0
    &&& info.official_limit == 0
    &&& info.next_reset == 0
    &&& shows_totals(info, node)
    &&& info.active_devices@.len() == 0
}

/// The list shows every server once, or where none is known every node of the history once, in the
/// order of the names; `p[i]` is the index of what item `i` shows.
pub open spec fn lists_nodes(
    list: Seq<NodeResponseInfo>,
    servers: Seq<BwgServerLiveStatus>,
    history: NasTrafficHistory,
    now: i64,
    threshold: i64,
    p: Seq<int>,
) -> bool {
    &&& forall|i: int, j: int|
        0 <= i < j < list.len() ==> !text_before(
            (#[trigger] list[j]).name@,
            (#[trigger] list[i]).name@,
        )
    &&& rearranges(p, list.len() as int)
    &&& if servers.len() > 0 {
        &&& list.len() == servers.len()
        &&& forall|i: int|
            0 <= i < list.len() ==> shows_server(
                #[trigger] list[i],
                servers[p[i]],
                history,
                now,
                threshold,
            )
    } else {
        &&& list.len() == history.nodes.keys().len()
        &&& forall|i: int|
            0 <= i < list.len() ==> shows_unmatched(
                #[trigger] list[i],
                history.nodes.keys()[p[i]],
                history.nodes.entries()[p[i]],
            )
    }
}

/// The list shows every server once, or where none is known every node of the history once, in the
/// order of the names.
pub open spec fn shows_nodes(
    list: Seq<NodeResponseInfo>,
    servers: Seq<BwgServerLiveStatus>,
    history: NasTrafficHistory,
    now: i64,
    threshold: i64,
) -> bool {
    exists|p: Seq<int>| #[trigger] lists_nodes(list, servers, history, now, threshold, p)
}

/// Exactly the names of the devices that are active at the node are found, each once.
proof fn lemma_active_at(
    names: Seq<Seq<char>>,
    devices: Seq<DeviceHistory>,
    ip: Seq<char>,
    now: int,
    threshold: int,
)
    requires
        names.len() == devices.len(),
        names.no_duplicates(),
    ensures
        ({
            let active = active_at(names, devices, ip, now, threshold);
            &&& active.no_duplicates()
            &&& forall|name: Seq<char>| #[trigger] active.contains(name) ==> names.contains(name)
            &&& forall|k: int|
                0 <= k < names.len() ==> (active.contains(#[trigger] names[k]) <==> node_key(
                    devices[k].current_node@,
                ) == ip && now - devices[k].last_seen < threshold)
        }),
    decreases names.len(),
{
    if names.len() > 0 {
        let few = names.drop_last();
        let rest = devices.drop_last();
        assert(few.no_duplicates()) by {
            assert forall|i: int, j: int| 0 <= i < few.len() && 0 <= j < few.len() && i != j implies few[i]
                != few[j] by {
                assert(few[i] == names[i] && few[j] == names[j]);
            }
        }
        lemma_active_at(few, rest, ip, now, threshold);
        let before = active_at(few, rest, ip, now, threshold);
        let active = active_at(names, devices, ip, now, threshold);
        assert forall|name: Seq<char>| #[trigger] few.contains(name) implies names.contains(name)
            && name != names.last() by {
            let i = choose|i: int| 0 <= i < few.len() && few[i] == name;
            assert(names[i] == name);
        }
        assert(!few.contains(names.last()));
        assert(!before.contains(names.last()));
        if is_active_at(devices.last(), ip, now, threshold) {
            assert(active == before.push(names.last()));
            assert(active[before.len() as int] == names.last());
            assert forall|name: Seq<char>| #[trigger] active.contains(name) == (before.contains(name)
                || name == names.last()) by {
                if before.contains(name) {
                    let i = choose|i: int| 0 <= i < before.len() && before[i] == name;
                    assert(active[i] == name);
                }
                if active.contains(name) {
                    let i = choose|i: int| 0 <= i < active.len() && active[i] == name;
                    if i < before.len() {
                        assert(before[i] == name);
                    }
                }
            }
            assert forall|i: int, j: int| 0 <= i < active.len() && 0 <= j < active.len() && i
                != j implies active[i] != active[j] by {
                if i < before.len() {
                    assert(before.contains(before[i]));
                }
                if j < before.len() {
                    assert(before.contains(before[j]));
                }
            }
        }
        assert(names.contains(names.last())) by {
            assert(names[names.len() - 1] == names.last());
        }
        assert forall|k: int| 0 <= k < names.len() implies (active.contains(#[trigger] names[k])
            <==> node_key(devices[k].current_node@) == ip && now - devices[k].last_seen
            < threshold) by {
            if k < few.len() {
                assert(few[k] == names[k]);
                assert(rest[k] == devices[k]);
                assert(few.contains(names[k]));
            }
        }
    }
}

/// An item that says of a server what is said of it shows the server.
proof fn lemma_shows_server(
    info: NodeResponseInfo,
    server: BwgServerLiveStatus,
    history: NasTrafficHistory,
    now: i64,
    threshold: i64,
)
    requires
        info.rank_view() == server_info(server, history, now as int, threshold as int),
        node_is_sound(server.ip@, history),
    ensures
        shows_server(info, server, history, now, threshold),
{
    lemma_active_at(
        history.devices.keys(),
        history.devices.entries(),
        server.ip@,
        now as int,
        threshold as int,
    );
    assert forall|k: int|
        0 <= k < history.nodes.keys().len() && #[trigger] history.nodes.keys()[k]
            == server.ip@ implies shows_totals(info, history.nodes.entries()[k]) by {
        assert(history.nodes.keys().contains(server.ip@));
        assert(history.nodes.keys().index_of(server.ip@) == k);
        lemma_shows_totals(info, history.nodes.entries()[k]);
    }
}

proof fn lemma_shows_totals(info: NodeResponseInfo, node: NodeHistory)
    requires
        info.rank_view().accumulated == node_bytes(Some(node)).0,
        info.rank_view().abnormal == node_bytes(Some(node)).1,
        node.abnormal_domain_traffic.wf(),
    ensures
        shows_totals(info, node),
{
    assert(entry_bytes(node.abnormal_domain_traffic.values())
        =~= node.abnormal_domain_traffic.entries().map_values(
        |d: ClassifiedDomainDelta| d.bytes as int,
    ));
}

/// Whether every number that is needed of the nodes is an `i64`.
pub fn can_show_nodes(
    servers: &Vec<BwgServerLiveStatus>,
    history: &NasTrafficHistory,
    now: i64,
) -> (r: bool)
    ensures
        r == node_infos_fit(servers@, *history, now as int),
{
    checked_node_list(servers, history, now, 0).is_some()
}

/// What readers are shown of the nodes, in the order of their names; a device is active at its node
/// as long as it counts as online, for `threshold` seconds after it was last seen.
pub fn node_list(
    servers: &Vec<BwgServerLiveStatus>,
    history: &NasTrafficHistory,
    now: i64,
    threshold: i64,
) -> (r: Vec<NodeResponseInfo>)
    requires
        node_infos_fit(servers@, *history, now as int),
    ensures
        rank_views(r@) == in_order::<NodeResponseInfo>(
            node_infos(servers@, *history, now as int, threshold as int),
        ),
        shows_nodes(r@, servers@, *history, now, threshold),
{
    match checked_node_list(servers, history, now, threshold) {
        Some(list) => list,
        None => Vec::new(),
    }
}

/// What is shown of a device moves with the reports of the device: where a report that was not
/// applied before is added, the download that is shown grows by the download of the report and the
/// upload by its upload, and the time and the node are those of the report.
pub proof fn shown_bytes_grow_with_a_report(
    h: History,
    p: Report,
    when: When,
    suffixes: Seq<Seq<char>>,
    before: DeviceHistory,
    after: DeviceHistory,
    shown: DeviceResponseInfo,
    shown_after: DeviceResponseInfo,
    now: i64,
    threshold: i64,
)
    requires
        !is_repeat(h, p),
        h.devices.contains_key(p.device),
        before.model() == h.devices[p.device],
        after.model() == after_report(h, p, when, suffixes).devices[p.device],
        shows_device(shown, p.device, before, now, threshold),
        shows_device(shown_after, p.device, after, now, threshold),
    ensures
        shown_after.name@ == shown.name@,
        shown_after.total_download == shown.total_download + p.download,
        shown_after.total_upload == shown.total_upload + p.upload,
        shown_after.last_seen == when.timestamp,
        shown_after.current_node@ == p.node,
        shown_after.online <==> now - when.timestamp < threshold,
{
    report_adds_to_its_device(h, p, when, suffixes, p.device);
}

/// A setting that is a number gives for how many seconds a device counts as online; without a setting,
/// and with one that is no number, it is 90.
pub proof fn online_seconds_are_read_from_settings(n: i64, other: Seq<char>)
    requires
        n >= 0,
        signed_in(other) is None,
    ensures
        online_seconds_by(Some(decimal(n as nat))) == n,
        online_seconds_by(Some(other)) == 90,
        online_seconds_by(None) == 90,
{
    written_numbers_read_back(n as nat);
}

/// What is shown of a device is the device's own: its name, its download, its upload, its abnormal
/// bytes, when it was last seen and where; and it is online exactly if that was less than `threshold`
/// seconds ago.
pub proof fn devices_are_shown_as_they_are(
    info: DeviceResponseInfo,
    name: Seq<char>,
    dev: DeviceHistory,
    now: i64,
    threshold: i64,
)
    requires
        shows_device(info, name, dev, now, threshold),
    ensures
        info.name@ == name,
        info.total_download == dev.total_download,
        info.total_upload == dev.total_upload,
        info.total_abnormal_proxy == dev.total_abnormal_proxy,
        info.last_seen == dev.last_seen,
        info.current_node@ == dev.current_node@,
        now - dev.last_seen < threshold ==> info.online,
        now - dev.last_seen >= threshold ==> !info.online,
        info.top_abnormal_domains@.len() <= 5,
        info.top_abnormal_domains@.len() <= dev.abnormal_domain_traffic.keys().len(),
        dev.abnormal_domain_traffic.keys().len() <= 5 ==> info.top_abnormal_domains@.len()
            == dev.abnormal_domain_traffic.keys().len(),
{
}

/// What is shown of a server is the server's own, together with the bytes that are kept under its
/// address; a device is listed with it exactly if it is at it and online.
pub proof fn servers_are_shown_as_they_are(
    info: NodeResponseInfo,
    server: BwgServerLiveStatus,
    history: NasTrafficHistory,
    now: i64,
    threshold: i64,
    n: int,
    k: int,
)
    requires
        shows_server(info, server, history, now, threshold),
        0 <= k < history.devices.keys().len(),
    ensures
        info.name@ == server.name@,
        info.ip@ == server.ip@,
        info.official_used == server.official_used_bytes,
        info.official_limit == server.official_limit_bytes,
        info.next_reset == server.next_reset_time,
        0 <= n < history.nodes.keys().len() && history.nodes.keys()[n] == server.ip@ ==> {
            let node = history.nodes.entries()[n];
            &&& info.client_accumulated == node.total_download + node.total_upload
            &&& info.client_abnormal == sum(
                node.abnormal_domain_traffic.entries().map_values(
                    |d: ClassifiedDomainDelta| d.bytes as int,
                ),
            )
        },
        !history.nodes.keys().contains(server.ip@) ==> info.client_accumulated == 0
            && info.client_abnormal == 0,
        views(info.active_devices@).contains(history.devices.keys()[k]) <==> node_key(
            history.devices.entries()[k].current_node@,
        ) == server.ip@ && now - history.devices.entries()[k].last_seen < threshold,
{
}

/// What is shown of a domain is the domain with its own bytes and its own classification.
pub proof fn domains_are_shown_as_they_are(
    item: ApiTrafficItem,
    k: Seq<char>,
    bytes: i64,
    d: ClassifiedDomainDelta,
)
    ensures
        shows_count(item, k, bytes) ==> item.domain@ == k && item.bytes == bytes
            && item.should_proxy is None && item.category is None && item.reason is None,
        shows_entry(item, k, d) ==> item.domain@ == k && item.bytes == d.bytes && item.should_proxy
            == Some(d.should_proxy) && item.category is Some && item.category->0@ == d.category@
            && item.reason is Some && item.reason->0@ == d.reason@,
{
}

/// The devices can be shown exactly where the time since each was last seen is an `i64`, and the
/// nodes where the sums of each are, and the times of the devices at a server.
pub proof fn lists_fit_where_their_numbers_do(
    devices: Seq<DeviceHistory>,
    node: NodeHistory,
    ip: Seq<char>,
    now: int,
)
    ensures
        ages_fit(devices, now) <==> forall|i: int|
            0 <= i < devices.len() ==> -0x8000_0000_0000_0000 <= now - (
            #[trigger] devices[i]).last_seen < 0x8000_0000_0000_0000,
        ages_at_fit(devices, ip, now) <==> forall|i: int|
            0 <= i < devices.len() && node_key((#[trigger] devices[i]).current_node@) == ip
                ==> -0x8000_0000_0000_0000 <= now - devices[i].last_seen < 0x8000_0000_0000_0000,
        node_sums_fit(node) <==> fits(node.total_download + node.total_upload) && forall|n: int|
            0 <= n <= node.abnormal_domain_traffic.values().len() ==> fits(
                #[trigger] sum(entry_bytes(node.abnormal_domain_traffic.values()).take(n)),
            ),
{
}

} // verus!
