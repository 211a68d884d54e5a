//! The traffic that the provider of the servers counts, and the traffic of days and weeks that
//! follows from it.

use crate::clock::{
    date_of, day_in, day_of, day_of_hour, has_ten_bytes_or_less, hour_of, short_date_of, LocalTime,
};
use crate::json::Json;
use crate::text::{begins_with, chars_of, opt_view, same_text, starts_with, utf8_len};
use crate::text_map::{
    count_of, fits, grows_by, lemma_map_of, lemma_sum_insert, map_of, map_sum, running_sums_fit,
    stays_under, sum, sum_fits, values_with, TextMap,
};
use crate::foreign::local_text_in;
use vstd::prelude::*;
use vstd::string::StringExecFns;

verus! {

// ---------------------------------------------------------------------------
// Servers
// ---------------------------------------------------------------------------

/// A server, and how the provider is asked about it.
#[derive(Debug)]
pub struct BwgServerConfig {
    pub name: String,
    pub veid: String,
    pub api_key: String,
    pub ip: String,
}

/// What the provider answers.
#[derive(Debug)]
pub struct BwgApiResponse {
    pub plan_monthly_data: i64,
    pub data_counter: i64,
    pub data_next_reset: i64,
    pub error: i32,
    /// The other fields of the answer.
    pub extra: Vec<(String, Json)>,
}

/// What is known of a server from the provider.
#[derive(Debug)]
pub struct BwgServerLiveStatus {
    pub name: String,
    pub ip: String,
    pub official_used_bytes: i64,
    pub official_limit_bytes: i64,
    pub next_reset_time: i64,
}

/// The server is still the example that a new list begins with.
pub open spec fn is_example(veid: Seq<char>, api_key: Seq<char>) -> bool {
    api_key == "your_api_key_here"@ || veid == "123456"@
}

/// The list that stands where there is none: one server as an example.
pub fn example_servers() -> (r: Vec<BwgServerConfig>)
    ensures
        r@.len() == 1,
        r@[0].name@ == "示例香港节点"@,
        r@[0].veid@ == "123456"@,
        r@[0].api_key@ == "your_api_key_here"@,
        r@[0].ip@ == "1.2.3.4"@,
        is_example(r@[0].veid@, r@[0].api_key@),
{
    let mut out: Vec<BwgServerConfig> = Vec::new();
    out.push(
        BwgServerConfig {
            name: "示例香港节点".to_owned(),
            veid: "123456".to_owned(),
            api_key: "your_api_key_here".to_owned(),
            ip: "1.2.3.4".to_owned(),
        },
    );
    out
}

/// The URL at which the provider is asked about a server; none for the example.
pub fn request_url(server: &BwgServerConfig) -> (r: Option<String>)
    ensures
        opt_view(r) == if is_example(server.veid@, server.api_key@) {
            None
        } else {
            Some(
                "https://api.64clouds.com/v1/getServiceInfo?veid="@ + server.veid@ + "&api_key="@
                    + server.api_key@,
            )
        },
{
    if same_text(server.api_key.as_str(), "your_api_key_here") || same_text(
        server.veid.as_str(),
        "123456",
    ) {
        return None;
    }
    Some(
        "https://api.64clouds.com/v1/getServiceInfo?veid=".to_owned().concat(
            server.veid.as_str(),
        ).concat("&api_key=").concat(server.api_key.as_str()),
    )
}

/// What is known of a server from the answer of the provider; nothing where that is an error.
pub fn live_status(server: &BwgServerConfig, answer: &BwgApiResponse) -> (r: Option<
    BwgServerLiveStatus,
>)
    ensures
        match r {
            Some(s) => answer.error == 0 && s.name@ == server.name@ && s.ip@ == server.ip@
                && s.official_used_bytes == answer.data_counter && s.official_limit_bytes
                == answer.plan_monthly_data && s.next_reset_time == answer.data_next_reset,
            None => answer.error != 0,
        },
{
    if answer.error != 0 {
        return None;
    }
    Some(
        BwgServerLiveStatus {
            name: server.name.clone(),
            ip: server.ip.clone(),
            official_used_bytes: answer.data_counter,
            official_limit_bytes: answer.plan_monthly_data,
            next_reset_time: answer.data_next_reset,
        },
    )
}

/// What is shown of the servers after a round: what the round found, unless it found nothing.
pub fn after_round(
    shown: Vec<BwgServerLiveStatus>,
    found: Vec<BwgServerLiveStatus>,
) -> (r: Vec<BwgServerLiveStatus>)
    ensures
        r == if found@.len() > 0 {
            found
        } else {
            shown
        },
{
    if found.len() > 0 {
        found
    } else {
        shown
    }
}

// ---------------------------------------------------------------------------
// Counters of servers
// ---------------------------------------------------------------------------

/// The traffic by hour, and what was last read of the counters of the servers.
pub struct TrafficHistory {
    pub hourly_usage: TextMap<i64>,
    pub last_counter: i64,
    pub last_reset: i64,
    pub server_last_counters: TextMap<i64>,
    pub server_last_resets: TextMap<i64>,
}

/// What the history of traffic says.
#[verifier::ext_equal]
pub struct Usage {
    pub hourly: Map<Seq<char>, int>,
    pub last_counter: int,
    pub last_reset: int,
    pub counters: Map<Seq<char>, int>,
    pub resets: Map<Seq<char>, int>,
}

impl TrafficHistory {
    pub open spec fn usage(self) -> Usage {
        Usage {
            hourly: self.hourly_usage.map(),
            last_counter: self.last_counter as int,
            last_reset: self.last_reset as int,
            counters: self.server_last_counters.map(),
            resets: self.server_last_resets.map(),
        }
    }
}

impl Default for TrafficHistory {
    fn default() -> (r: Self)
        ensures
            r.usage() == (Usage {
                hourly: Map::empty(),
                last_counter: 0,
                last_reset: 0,
                counters: Map::empty(),
                resets: Map::empty(),
            }),
    {
        TrafficHistory {
            hourly_usage: TextMap::new(),
            last_counter: 0,
            last_reset: 0,
            server_last_counters: TextMap::new(),
            server_last_resets: TextMap::new(),
        }
    }
}

/// The counter began anew since it was last read: the time of its reset is another one, or it is
/// lower than before.
pub open spec fn began_anew(last: int, last_reset: int, counter: int, reset: int) -> bool {
    (reset > 0 && reset != last_reset) || counter < last
}

/// The traffic since the counter was last read.
pub open spec fn counter_growth(last: int, last_reset: int, counter: int, reset: int) -> int {
    if began_anew(last, last_reset, counter, reset) {
        counter
    } else {
        counter - last
    }
}

/// The history after a reading of the counter of a server, at the hour `hour`. A counter that is
/// not above zero is passed over; the first one of a server adds no traffic.
pub open spec fn after_reading(
    u: Usage,
    server: Seq<char>,
    counter: int,
    reset: int,
    hour: Seq<char>,
) -> Usage {
    let last = count_of(u.counters, server);
    let last_reset = count_of(u.resets, server);
    let counters = u.counters.insert(server, counter);
    let resets = u.resets.insert(server, reset);
    let growth = counter_growth(last, last_reset, counter, reset);
    if counter <= 0 {
        u
    } else if last == 0 {
        Usage { last_counter: counter, last_reset: reset, counters, resets, ..u }
    } else {
        Usage {
            hourly: if growth > 0 {
                u.hourly.insert(hour, count_of(u.hourly, hour) + growth)
            } else {
                u.hourly
            },
            last_counter: map_sum(counters),
            last_reset: reset,
            counters,
            resets,
        }
    }
}

/// Every number that comes up with a reading is an `i64`.
pub open spec fn reading_fits_in(
    h: TrafficHistory,
    server: Seq<char>,
    counter: int,
    reset: int,
    hour: Seq<char>,
) -> bool {
    let u = h.usage();
    let last = count_of(u.counters, server);
    let last_reset = count_of(u.resets, server);
    let growth = counter_growth(last, last_reset, counter, reset);
    counter > 0 && last != 0 ==> {
        &&& fits(growth)
        &&& growth > 0 ==> fits(count_of(u.hourly, hour) + growth)
        &&& running_sums_fit(
            values_with(
                h.server_last_counters.keys(),
                h.server_last_counters.values(),
                server,
                counter,
            ),
        )
    }
}

/// The traffic since the counter was last read, if it is an `i64`.
fn checked_counter_growth(last: i64, last_reset: i64, counter: i64, reset: i64) -> (r: Option<i64>)
    ensures
        match r {
            Some(g) => g == counter_growth(
                last as int,
                last_reset as int,
                counter as int,
                reset as int,
            ),
            None => !fits(
                counter_growth(last as int, last_reset as int, counter as int, reset as int),
            ),
        },
{
    if (reset > 0 && reset != last_reset) || counter < last {
        Some(counter)
    } else {
        counter.checked_sub(last)
    }
}

/// Whether every number that comes up with a reading is an `i64`.
pub fn reading_fits(
    history: &TrafficHistory,
    server_key: &str,
    current_counter: i64,
    reset_time: i64,
    hour_key: &str,
) -> (r: bool)
    ensures
        r == reading_fits_in(
            *history,
            server_key@,
            current_counter as int,
            reset_time as int,
            hour_key@,
        ),
{
    let last: i64 = history.server_last_counters.count(server_key);
    if current_counter <= 0 || last == 0 {
        return true;
    }
    let last_reset: i64 = history.server_last_resets.count(server_key);
    let growth: i64 = match checked_counter_growth(last, last_reset, current_counter, reset_time) {
        Some(g) => g,
        None => {
            return false;
        },
    };
    if growth > 0 && !sum_fits(history.hourly_usage.count(hour_key), growth) {
        return false;
    }
    let mut counters = history.server_last_counters.duplicate();
    counters.insert(server_key.to_owned(), current_counter);
    counters.checked_total().is_some()
}

/// Takes a reading of the counter of a server into the history, and says whether it was taken.
pub fn update_traffic_delta_for_server(
    history: &mut TrafficHistory,
    server_key: &str,
    current_counter: i64,
    reset_time: i64,
    hour_key: &str,
) -> (r: bool)
    requires
        reading_fits_in(
            *old(history),
            server_key@,
            current_counter as int,
            reset_time as int,
            hour_key@,
        ),
    ensures
        r == (current_counter > 0),
        final(history).usage() == after_reading(
            old(history).usage(),
            server_key@,
            current_counter as int,
            reset_time as int,
            hour_key@,
        ),
{
    if current_counter <= 0 {
        return false;
    }
    let ghost u = history.usage();
    let last: i64 = history.server_last_counters.count(server_key);
    let last_reset: i64 = history.server_last_resets.count(server_key);
    if last == 0 {
        history.server_last_counters.insert(server_key.to_owned(), current_counter);
        history.server_last_resets.insert(server_key.to_owned(), reset_time);
        history.last_counter = current_counter;
        history.last_reset = reset_time;
        return true;
    }
    if let Some(growth) = checked_counter_growth(last, last_reset, current_counter, reset_time) {
        if growth > 0 {
            history.hourly_usage.add_count(hour_key, growth);
        }
    }
    history.server_last_counters.insert(server_key.to_owned(), current_counter);
    history.server_last_resets.insert(server_key.to_owned(), reset_time);
    if let Some(total) = history.server_last_counters.checked_total() {
        history.last_counter = total;
    }
    history.last_reset = reset_time;
    true
}

/// Between two readings without a reset the traffic that is counted is how far the counter moved,
/// however many readings lie between them.
pub proof fn growth_adds_up(first: int, second: int, third: int, reset: int)
    requires
        first <= second <= third,
    ensures
        counter_growth(first, reset, second, reset) + counter_growth(second, reset, third, reset)
            == counter_growth(first, reset, third, reset),
{
}

/// Readings never count negative traffic.
pub proof fn growth_is_not_negative(last: int, last_reset: int, counter: int, reset: int)
    requires
        counter > 0,
    ensures
        counter_growth(last, last_reset, counter, reset) >= 0,
{
}

// ---------------------------------------------------------------------------
// Days and weeks
// ---------------------------------------------------------------------------

/// The values whose flag is set, in order.
pub open spec fn chosen(values: Seq<int>, flags: Seq<bool>) -> Seq<int>
    decreases values.len(),
{
    if values.len() == 0 {
        Seq::empty()
    } else {
        let before = chosen(values.drop_last(), flags.drop_last());
        if flags.last() {
            before.push(values.last())
        } else {
            before
        }
    }
}

/// The sum of the values whose flag is set, if every sum on the way is an `i64`.
fn checked_sum(m: &TextMap<i64>, flags: &Vec<bool>) -> (r: Option<i64>)
    requires
        flags@.len() == m.keys().len(),
    ensures
        match r {
            Some(t) => running_sums_fit(chosen(m.values(), flags@)) && t == sum(
                chosen(m.values(), flags@),
            ),
            None => !running_sums_fit(chosen(m.values(), flags@)),
        },
{
    let n: usize = m.len();
    let ghost all = m.values();
    let mut t: i64 = 0;
    proof {
        assert(all.take(0) =~= Seq::<int>::empty());
        assert(forall|j: int| 0 <= j <= 0 ==> #[trigger] Seq::<int>::empty().take(j) =~= Seq::<
            int,
        >::empty());
    }
    for i in 0..n
        invariant
            n == all.len(),
            n == flags@.len(),
            all == m.values(),
            m.wf(),
            running_sums_fit(chosen(all.take(i as int), flags@.take(i as int))),
            t == sum(chosen(all.take(i as int), flags@.take(i as int))),
    {
        let v: i64 = *m.value_at(i);
        let ghost here = chosen(all.take(i as int), flags@.take(i as int));
        let ghost there = chosen(all.take(i as int + 1), flags@.take(i as int + 1));
        proof {
            assert(all.take(i as int + 1).drop_last() =~= all.take(i as int));
            assert(flags@.take(i as int + 1).drop_last() =~= flags@.take(i as int));
            lemma_chosen_grows(all, flags@, i as int + 1);
        }
        if flags[i] {
            assert(there == here.push(v as int));
            assert(there.drop_last() =~= here);
            match t.checked_add(v) {
                Some(next) => {
                    t = next;
                    assert forall|j: int| 0 <= j <= there.len() implies fits(
                        #[trigger] sum(there.take(j)),
                    ) by {
                        if j < there.len() {
                            assert(there.take(j) =~= here.take(j));
                        } else {
                            assert(there.take(j) =~= there);
                        }
                    }
                },
                None => {
                    proof {
                        let whole = chosen(all, flags@);
                        let k = there.len() as int;
                        assert(whole.take(k) == there);
                        assert(!fits(sum(whole.take(k))));
                    }
                    return None;
                },
            }
        }
    }
    assert(all.take(n as int) =~= all);
    assert(flags@.take(n as int) =~= flags@);
    Some(t)
}

proof fn lemma_chosen_grows(values: Seq<int>, flags: Seq<bool>, k: int)
    requires
        values.len() == flags.len(),
        0 <= k <= values.len(),
    ensures
        ({
            let part = chosen(values.take(k), flags.take(k));
            let whole = chosen(values, flags);
            part.len() <= whole.len() && whole.take(part.len() as int) == part
        }),
    decreases values.len(),
{
    let part = chosen(values.take(k), flags.take(k));
    if k == values.len() {
        assert(values.take(k) =~= values);
        assert(flags.take(k) =~= flags);
        assert(part.take(part.len() as int) =~= part);
    } else {
        let v0 = values.drop_last();
        let f0 = flags.drop_last();
        assert(v0.take(k) =~= values.take(k));
        assert(f0.take(k) =~= flags.take(k));
        lemma_chosen_grows(v0, f0, k);
        let before = chosen(v0, f0);
        let whole = chosen(values, flags);
        assert(whole.take(part.len() as int) =~= before.take(part.len() as int));
    }
}

/// Which hours lie on the day `date`.
pub open spec fn on_day(hours: Seq<Seq<char>>, date: Seq<char>) -> Seq<bool> {
    hours.map_values(|h: Seq<char>| starts_with(h, date))
}

/// The traffic of the day `date`, if every sum on the way is an `i64`.
pub fn usage_of_day(usage: &TextMap<i64>, date: &str) -> (r: Option<i64>)
    ensures
        match r {
            Some(t) => running_sums_fit(chosen(usage.values(), on_day(usage.keys(), date@))) && t
                == sum(chosen(usage.values(), on_day(usage.keys(), date@))),
            None => !running_sums_fit(chosen(usage.values(), on_day(usage.keys(), date@))),
        },
{
    let n: usize = usage.len();
    let d = chars_of(date);
    let mut flags: Vec<bool> = Vec::new();
    for i in 0..n
        invariant
            n == usage.keys().len(),
            d@ == date@,
            flags@.len() == i,
            forall|j: int|
                0 <= j < i ==> #[trigger] flags@[j] == starts_with(usage.keys()[j], date@),
    {
        let hour = chars_of(usage.key_at(i).as_str());
        flags.push(begins_with(hour.as_slice(), d.as_slice()));
    }
    assert(flags@ =~= on_day(usage.keys(), date@));
    checked_sum(usage, &flags)
}

/// The first ten bytes of every hour are a text, where there are as many.
pub open spec fn hours_are_whole(hours: Seq<Seq<char>>) -> bool {
    forall|i: int| 0 <= i < hours.len() ==> has_ten_bytes_or_less(#[trigger] hours[i])
}

/// Whether the first ten bytes of every hour are a text, where there are as many.
pub fn can_read_hours(usage: &TextMap<i64>) -> (r: bool)
    ensures
        r == hours_are_whole(usage.keys()),
{
    let n: usize = usage.len();
    for i in 0..n
        invariant
            n == usage.keys().len(),
            forall|j: int| 0 <= j < i ==> has_ten_bytes_or_less(#[trigger] usage.keys()[j]),
    {
        let hour = usage.key_at(i).as_str();
        if utf8_len(hour) >= 10 && !hour.is_char_boundary(10) {
            assert(!has_ten_bytes_or_less(usage.keys()[i as int]));
            return false;
        }
    }
    true
}

/// The days that the hours lie on.
pub open spec fn days_in(hours: Seq<Seq<char>>) -> Seq<Option<i32>> {
    hours.map_values(|h: Seq<char>| day_in(h))
}

/// The days that the hours lie on.
pub fn days_of_hours(usage: &TextMap<i64>) -> (r: Vec<Option<i32>>)
    requires
        hours_are_whole(usage.keys()),
    ensures
        r@ == days_in(usage.keys()),
{
    let n: usize = usage.len();
    let mut out: Vec<Option<i32>> = Vec::new();
    for i in 0..n
        invariant
            n == usage.keys().len(),
            hours_are_whole(usage.keys()),
            out@.len() == i,
            forall|j: int| 0 <= j < i ==> #[trigger] out@[j] == day_in(usage.keys()[j]),
    {
        let hour = usage.key_at(i);
        assert(has_ten_bytes_or_less(usage.keys()[i as int]));
        out.push(day_of_hour(hour.as_str()));
    }
    assert(out@ =~= days_in(usage.keys()));
    out
}

/// Which of the days lie from `start` to `end`.
pub open spec fn within(days: Seq<Option<i32>>, start: int, end: int) -> Seq<bool> {
    days.map_values(|d: Option<i32>| d matches Some(n) && start <= n <= end)
}

/// The traffic of the days from `start` to `end`, if every sum on the way is an `i64`; `days` are
/// the days that the hours of `usage` lie on.
pub fn usage_of_days(usage: &TextMap<i64>, days: &Vec<Option<i32>>, start: i64, end: i64) -> (r:
    Option<i64>)
    requires
        days@.len() == usage.keys().len(),
    ensures
        match r {
            Some(t) => running_sums_fit(
                chosen(usage.values(), within(days@, start as int, end as int)),
            ) && t == sum(chosen(usage.values(), within(days@, start as int, end as int))),
            None => !running_sums_fit(
                chosen(usage.values(), within(days@, start as int, end as int)),
            ),
        },
{
    let mut flags: Vec<bool> = Vec::new();
    for i in 0..days.len()
        invariant
            flags@.len() == i,
            forall|j: int|
                0 <= j < i ==> #[trigger] flags@[j] == (days@[j] matches Some(n) && start <= n
                    <= end),
    {
        let flag = match days[i] {
            Some(n) => start <= n as i64 && n as i64 <= end,
            None => false,
        };
        flags.push(flag);
    }
    assert(flags@ =~= within(days@, start as int, end as int));
    checked_sum(usage, &flags)
}

/// The traffic of the last seven days and of the last four weeks, the oldest first.
pub struct UsageSeries {
    pub daily_labels: Vec<String>,
    pub daily_bytes: Vec<i64>,
    pub weekly_labels: Vec<String>,
    pub weekly_bytes: Vec<i64>,
}

/// The label and the traffic of a day, where the day can be shown and the sums are `i64`.
pub open spec fn day_entry(usage: TextMap<i64>, t: LocalTime) -> Option<(Seq<char>, int)> {
    match (date_of(t), short_date_of(t)) {
        (Some(date), Some(label)) => {
            let values = chosen(usage.values(), on_day(usage.keys(), date));
            if running_sums_fit(values) {
                Some((label, sum(values)))
            } else {
                None
            }
        },
        _ => None,
    }
}

/// The label and the traffic of the days from that of `start` to that of `end`, where they can be
/// shown and the sums are `i64`.
pub open spec fn days_entry(
    usage: TextMap<i64>,
    days: Seq<Option<i32>>,
    start: LocalTime,
    end: LocalTime,
) -> Option<(Seq<char>, int)> {
    match (short_date_of(start), short_date_of(end)) {
        (Some(a), Some(b)) => {
            let values = chosen(usage.values(), within(days, day_of(start), day_of(end)));
            if running_sums_fit(values) {
                Some((a + "~"@ + b, sum(values)))
            } else {
                None
            }
        },
        _ => None,
    }
}

/// The traffic of the day `k` of the last seven, 0 being the oldest one; `moments[n]` is a moment
/// `n` days ago.
pub open spec fn day_point(usage: TextMap<i64>, moments: Seq<LocalTime>, k: int) -> Option<
    (Seq<char>, int),
> {
    day_entry(usage, moments[6 - k])
}

/// The traffic of the week `k` of the last four, 0 being the oldest one. A week has seven days,
/// and the newest one ends today.
pub open spec fn week_point(
    usage: TextMap<i64>,
    days: Seq<Option<i32>>,
    moments: Seq<LocalTime>,
    k: int,
) -> Option<(Seq<char>, int)> {
    days_entry(usage, days, moments[7 * (4 - k) - 1], moments[7 * (3 - k)])
}

fn day_usage(usage: &TextMap<i64>, t: &LocalTime) -> (r: Option<(String, i64)>)
    ensures
        match r {
            Some((label, bytes)) => day_entry(*usage, *t) == Some((label@, bytes as int)),
            None => day_entry(*usage, *t) is None,
        },
{
    match t.date() {
        None => None,
        Some(date) => match t.short_date() {
            None => None,
            Some(label) => match usage_of_day(usage, date.as_str()) {
                None => None,
                Some(bytes) => Some((label, bytes)),
            },
        },
    }
}

fn days_usage(
    usage: &TextMap<i64>,
    days: &Vec<Option<i32>>,
    start: &LocalTime,
    end: &LocalTime,
) -> (r: Option<(String, i64)>)
    requires
        days@.len() == usage.keys().len(),
    ensures
        match r {
            Some((label, bytes)) => days_entry(*usage, days@, *start, *end) == Some(
                (label@, bytes as int),
            ),
            None => days_entry(*usage, days@, *start, *end) is None,
        },
{
    match start.short_date() {
        None => None,
        Some(a) => match end.short_date() {
            None => None,
            Some(b) => match usage_of_days(usage, days, start.day(), end.day()) {
                None => None,
                Some(bytes) => Some((a.concat("~").concat(b.as_str()), bytes)),
            },
        },
    }
}

/// The traffic of the last seven days and of the last four weeks; `days` are the days that the
/// hours of `usage` lie on, and `moments[n]` is a moment `n` days ago. There is none where one of
/// the moments cannot be shown or a sum is no `i64`.
pub fn series_of(
    usage: &TextMap<i64>,
    days: &Vec<Option<i32>>,
    moments: &Vec<LocalTime>,
) -> (r: Option<UsageSeries>)
    requires
        days@.len() == usage.keys().len(),
        moments@.len() >= 28,
    ensures
        match r {
            Some(s) => {
                &&& s.daily_labels@.len() == 7 && s.daily_bytes@.len() == 7
                &&& s.weekly_labels@.len() == 4 && s.weekly_bytes@.len() == 4
                &&& forall|k: int|
                    0 <= k < 7 ==> #[trigger] day_point(*usage, moments@, k) == Some(
                        (s.daily_labels@[k]@, s.daily_bytes@[k] as int),
                    )
                &&& forall|k: int|
                    0 <= k < 4 ==> #[trigger] week_point(*usage, days@, moments@, k) == Some(
                        (s.weekly_labels@[k]@, s.weekly_bytes@[k] as int),
                    )
            },
            None => {
                ||| exists|k: int| 0 <= k < 7 && #[trigger] day_point(*usage, moments@, k) is None
                ||| exists|k: int|
                    0 <= k < 4 && #[trigger] week_point(*usage, days@, moments@, k) is None
            },
        },
{
    let mut s = UsageSeries {
        daily_labels: Vec::new(),
        daily_bytes: Vec::new(),
        weekly_labels: Vec::new(),
        weekly_bytes: Vec::new(),
    };
    for k in 0..7usize
        invariant
            moments@.len() >= 28,
            s.daily_labels@.len() == k,
            s.daily_bytes@.len() == k,
            s.weekly_labels@.len() == 0,
            s.weekly_bytes@.len() == 0,
            forall|j: int|
                0 <= j < k ==> #[trigger] day_point(*usage, moments@, j) == Some(
                    (s.daily_labels@[j]@, s.daily_bytes@[j] as int),
                ),
    {
        match day_usage(usage, &moments[6 - k]) {
            None => {
                assert(day_point(*usage, moments@, k as int) is None);
                return None;
            },
            Some((label, bytes)) => {
                s.daily_labels.push(label);
                s.daily_bytes.push(bytes);
            },
        }
    }
    for k in 0..4usize
        invariant
            moments@.len() >= 28,
            days@.len() == usage.keys().len(),
            s.daily_labels@.len() == 7,
            s.daily_bytes@.len() == 7,
            forall|j: int|
                0 <= j < 7 ==> #[trigger] day_point(*usage, moments@, j) == Some(
                    (s.daily_labels@[j]@, s.daily_bytes@[j] as int),
                ),
            s.weekly_labels@.len() == k,
            s.weekly_bytes@.len() == k,
            forall|j: int|
                0 <= j < k ==> #[trigger] week_point(*usage, days@, moments@, j) == Some(
                    (s.weekly_labels@[j]@, s.weekly_bytes@[j] as int),
                ),
    {
        match days_usage(usage, days, &moments[7 * (4 - k) - 1], &moments[7 * (3 - k)]) {
            None => {
                assert(week_point(*usage, days@, moments@, k as int) is None);
                return None;
            },
            Some((label, bytes)) => {
                s.weekly_labels.push(label);
                s.weekly_bytes.push(bytes);
            },
        }
    }
    Some(s)
}

/// The traffic of the last seven days and of the last four weeks; `moments[n]` is a moment `n`
/// days ago. There is none where one of the moments cannot be shown or a sum is no `i64`.
pub fn usage_series(history: &TrafficHistory, moments: &Vec<LocalTime>) -> (r: Option<UsageSeries>)
    requires
        hours_are_whole(history.hourly_usage.keys()),
        moments@.len() >= 28,
    ensures
        ({
            let usage = history.hourly_usage;
            let days = days_in(usage.keys());
            match r {
                Some(s) => {
                    &&& s.daily_labels@.len() == 7 && s.daily_bytes@.len() == 7
                    &&& s.weekly_labels@.len() == 4 && s.weekly_bytes@.len() == 4
                    &&& forall|k: int|
                        0 <= k < 7 ==> #[trigger] day_point(usage, moments@, k) == Some(
                            (s.daily_labels@[k]@, s.daily_bytes@[k] as int),
                        )
                    &&& forall|k: int|
                        0 <= k < 4 ==> #[trigger] week_point(usage, days, moments@, k) == Some(
                            (s.weekly_labels@[k]@, s.weekly_bytes@[k] as int),
                        )
                },
                None => {
                    ||| exists|k: int| 0 <= k < 7 && #[trigger] day_point(usage, moments@, k) is None
                    ||| exists|k: int|
                        0 <= k < 4 && #[trigger] week_point(usage, days, moments@, k) is None
                },
            }
        }),
{
    let days = days_of_hours(&history.hourly_usage);
    series_of(&history.hourly_usage, &days, moments)
}

// ---------------------------------------------------------------------------
// What holds of the traffic of a day
// ---------------------------------------------------------------------------

/// The hours for which `p` holds, with their traffic.
pub open spec fn hours_where(
    m: Map<Seq<char>, int>,
    p: spec_fn(Seq<char>) -> bool,
) -> Map<Seq<char>, int> {
    Map::new(|h: Seq<char>| m.contains_key(h) && p(h), |h: Seq<char>| m[h])
}

/// The hours that lie on the day `date`, with their traffic.
pub open spec fn hours_on(m: Map<Seq<char>, int>, date: Seq<char>) -> Map<Seq<char>, int> {
    hours_where(m, |h: Seq<char>| starts_with(h, date))
}

/// The hour lies on one of the days from `start` to `end`.
pub open spec fn lies_within(hour: Seq<char>, start: int, end: int) -> bool {
    day_in(hour) matches Some(n) && start <= n <= end
}

/// The hours that lie on the days from `start` to `end`, with their traffic.
pub open spec fn hours_within(m: Map<Seq<char>, int>, start: int, end: int) -> Map<Seq<char>, int> {
    hours_where(m, |h: Seq<char>| lies_within(h, start, end))
}

proof fn lemma_sum_of_chosen(
    keys: Seq<Seq<char>>,
    values: Seq<int>,
    p: spec_fn(Seq<char>) -> bool,
)
    requires
        keys.len() == values.len(),
        keys.no_duplicates(),
    ensures
        sum(chosen(values, keys.map_values(p))) == map_sum(hours_where(map_of(keys, values), p)),
        hours_where(map_of(keys, values), p).dom().finite(),
    decreases keys.len(),
{
    if keys.len() == 0 {
        assert(hours_where(map_of(keys, values), p) =~= Map::<Seq<char>, int>::empty());
    } else {
        let k0 = keys.drop_last();
        let v0 = values.drop_last();
        let k = keys.last();
        let v = values.last();
        assert(k0.no_duplicates());
        lemma_sum_of_chosen(k0, v0, p);
        lemma_map_of(k0, v0);
        assert(!k0.contains(k)) by {
            if k0.contains(k) {
                let j = choose|j: int| 0 <= j < k0.len() && k0[j] == k;
                assert(keys[j] == keys[keys.len() - 1]);
            }
        }
        let before = hours_where(map_of(k0, v0), p);
        let after = hours_where(map_of(keys, values), p);
        assert(keys.map_values(p).drop_last() =~= k0.map_values(p));
        let picked = chosen(v0, k0.map_values(p));
        if p(k) {
            assert(after =~= before.insert(k, v));
            lemma_sum_insert(before, k, v);
            assert(picked.push(v).drop_last() =~= picked);
        } else {
            assert(after =~= before);
        }
    }
}

proof fn lemma_traffic_counts_where(
    m: Map<Seq<char>, int>,
    hour: Seq<char>,
    growth: int,
    p: spec_fn(Seq<char>) -> bool,
)
    requires
        m.dom().finite(),
    ensures
        map_sum(hours_where(m.insert(hour, count_of(m, hour) + growth), p)) == map_sum(
            hours_where(m, p),
        ) + if p(hour) {
            growth
        } else {
            0
        },
{
    let after = m.insert(hour, count_of(m, hour) + growth);
    let before = hours_where(m, p);
    assert(before.dom().subset_of(m.dom()));
    vstd::set_lib::lemma_len_subset(before.dom(), m.dom());
    if p(hour) {
        assert(hours_where(after, p) =~= before.insert(hour, count_of(m, hour) + growth));
        lemma_sum_insert(before, hour, count_of(m, hour) + growth);
    } else {
        assert(hours_where(after, p) =~= before);
    }
}

/// The traffic of a day is the sum of its hours, whatever the order of the entries.
pub proof fn day_is_sum_of_hours(keys: Seq<Seq<char>>, values: Seq<int>, date: Seq<char>)
    requires
        keys.len() == values.len(),
        keys.no_duplicates(),
    ensures
        sum(chosen(values, on_day(keys, date))) == map_sum(hours_on(map_of(keys, values), date)),
{
    lemma_sum_of_chosen(keys, values, |h: Seq<char>| starts_with(h, date));
}

/// The traffic of the days from one to another is the sum of their hours, whatever the order of
/// the entries.
pub proof fn days_are_sum_of_hours(
    keys: Seq<Seq<char>>,
    values: Seq<int>,
    start: int,
    end: int,
)
    requires
        keys.len() == values.len(),
        keys.no_duplicates(),
    ensures
        sum(chosen(values, within(days_in(keys), start, end))) == map_sum(
            hours_within(map_of(keys, values), start, end),
        ),
{
    let p = |h: Seq<char>| lies_within(h, start, end);
    lemma_sum_of_chosen(keys, values, p);
    assert(within(days_in(keys), start, end) =~= keys.map_values(p));
}

/// Traffic that is counted at an hour of a day is traffic of that day and of no other one.
pub proof fn traffic_counts_in_its_day(
    m: Map<Seq<char>, int>,
    hour: Seq<char>,
    growth: int,
    date: Seq<char>,
)
    requires
        m.dom().finite(),
    ensures
        map_sum(hours_on(m.insert(hour, count_of(m, hour) + growth), date)) == map_sum(
            hours_on(m, date),
        ) + if starts_with(hour, date) {
            growth
        } else {
            0
        },
{
    lemma_traffic_counts_where(m, hour, growth, |h: Seq<char>| starts_with(h, date));
}

/// Traffic that is counted at an hour is traffic of the weeks that its day lies in and of no
/// other ones.
pub proof fn traffic_counts_in_its_weeks(
    m: Map<Seq<char>, int>,
    hour: Seq<char>,
    growth: int,
    start: int,
    end: int,
)
    requires
        m.dom().finite(),
    ensures
        map_sum(hours_within(m.insert(hour, count_of(m, hour) + growth), start, end)) == map_sum(
            hours_within(m, start, end),
        ) + if lies_within(hour, start, end) {
            growth
        } else {
            0
        },
{
    lemma_traffic_counts_where(m, hour, growth, |h: Seq<char>| lies_within(h, start, end));
}

/// The hour under which traffic is filed at a moment lies on the day of that moment.
pub proof fn hour_lies_on_its_day(t: LocalTime)
    requires
        hour_of(t) is Some,
    ensures
        date_of(t) is Some,
        starts_with(hour_of(t)->0, date_of(t)->0),
{
    let date = date_of(t)->0;
    let hour = hour_of(t)->0;
    assert(hour.take(date.len() as int) =~= date);
}

/// Moments at steps of a day on a clock that keeps its offset.
pub open spec fn daily_steps(moments: Seq<LocalTime>) -> bool {
    forall|n: int|
        0 <= n < moments.len() ==> (#[trigger] moments[n]).timestamp == moments[0].timestamp - 86_400
            * n && moments[n].utc_offset == moments[0].utc_offset
}

/// A moment some days ago lies on the day that many days ago.
pub proof fn days_ago_count_days(moments: Seq<LocalTime>, n: int)
    requires
        daily_steps(moments),
        0 <= n < moments.len(),
    ensures
        day_of(moments[n]) == day_of(moments[0]) - n,
{
    let t = moments[0].timestamp + moments[0].utc_offset;
    assert(moments[n].timestamp + moments[n].utc_offset == t - 86_400 * n);
    assert((t - 86_400 * n) / 86_400 == t / 86_400 - n) by (nonlinear_arith);
}

/// The four weeks have seven days each, follow on each other without a gap, and the last one ends
/// today: every day of the last 28 lies in exactly one of them.
pub proof fn weeks_follow_on_each_other(moments: Seq<LocalTime>, k: int)
    requires
        daily_steps(moments),
        moments.len() >= 28,
        0 <= k < 4,
    ensures
        ({
            let start = day_of(moments[7 * (4 - k) - 1]);
            let end = day_of(moments[7 * (3 - k)]);
            &&& end == start + 6
            &&& k < 3 ==> day_of(moments[7 * (4 - (k + 1)) - 1]) == end + 1
            &&& k == 3 ==> end == day_of(moments[0])
        }),
{
    days_ago_count_days(moments, 7 * (4 - k) - 1);
    days_ago_count_days(moments, 7 * (3 - k));
    if k < 3 {
        days_ago_count_days(moments, 7 * (4 - (k + 1)) - 1);
    }
}

// ---------------------------------------------------------------------------
// What a reading adds
// ---------------------------------------------------------------------------

/// A reading that is not above zero changes nothing. Every other one is remembered as the last of its
/// server, with its reset, and changes what is remembered of no other server.
pub proof fn readings_are_remembered(
    u: Usage,
    server: Seq<char>,
    counter: int,
    reset: int,
    hour: Seq<char>,
    other: Seq<char>,
)
    requires
        other != server,
    ensures
        ({
            let after = after_reading(u, server, counter, reset, hour);
            &&& counter <= 0 ==> after == u
            &&& counter > 0 ==> {
                &&& after.counters.contains_key(server)
                &&& after.counters[server] == counter
                &&& after.resets.contains_key(server)
                &&& after.resets[server] == reset
                &&& after.last_reset == reset
                &&& stays_under(u.counters, after.counters, other)
                &&& stays_under(u.resets, after.resets, other)
            }
        }),
{
}

/// The first reading of a server adds no traffic. A later one adds how far the counter moved on, or
/// where it began anew, by another reset or by falling, all of it; to the hour of the reading and to
/// no other.
pub proof fn readings_add_what_is_new(
    u: Usage,
    server: Seq<char>,
    counter: int,
    reset: int,
    hour: Seq<char>,
    other: Seq<char>,
)
    requires
        counter > 0,
        other != hour,
    ensures
        ({
            let after = after_reading(u, server, counter, reset, hour);
            let last = u.counters[server];
            let last_reset = if u.resets.contains_key(server) {
                u.resets[server]
            } else {
                0
            };
            &&& stays_under(u.hourly, after.hourly, other)
            &&& !u.counters.contains_key(server) || last == 0 ==> after.hourly == u.hourly
                && after.last_counter == counter
            &&& u.counters.contains_key(server) && last != 0 ==> {
                &&& counter < last || (reset > 0 && reset != last_reset) ==> grows_by(
                    u.hourly,
                    after.hourly,
                    hour,
                    counter,
                )
                &&& counter > last && (reset <= 0 || reset == last_reset) ==> grows_by(
                    u.hourly,
                    after.hourly,
                    hour,
                    counter - last,
                )
                &&& counter == last && (reset <= 0 || reset == last_reset) ==> after.hourly
                    == u.hourly
                &&& u.counters.dom().finite() ==> after.last_counter - map_sum(u.counters)
                    == counter - last
            }
        }),
{
    if u.counters.contains_key(server) && u.counters.dom().finite() {
        lemma_sum_insert(u.counters, server, counter);
    }
}

/// The traffic of a day is shown with the day's date without its year, and is the sum of the hours
/// that begin with the date.
pub proof fn days_show_the_sum_of_their_hours(usage: TextMap<i64>, t: LocalTime)
    requires
        usage.wf(),
        day_entry(usage, t) is Some,
    ensures
        ({
            let (label, bytes) = day_entry(usage, t)->0;
            let date = local_text_in(t.timestamp, t.utc_offset, "%Y-%m-%d"@);
            &&& local_text_in(t.timestamp, t.utc_offset, "%m-%d"@) == Some(label)
            &&& date is Some
            &&& bytes == map_sum(hours_on(usage.map(), date->0))
        }),
{
    day_is_sum_of_hours(usage.keys(), usage.values(), date_of(t)->0);
}

/// The traffic of several days is shown with the dates of the first and the last, and is the sum of
/// the hours that lie on one of them.
pub proof fn weeks_show_the_sum_of_their_hours(
    usage: TextMap<i64>,
    start: LocalTime,
    end: LocalTime,
)
    requires
        usage.wf(),
        days_entry(usage, days_in(usage.keys()), start, end) is Some,
    ensures
        ({
            let r = days_entry(usage, days_in(usage.keys()), start, end)->0;
            &&& local_text_in(start.timestamp, start.utc_offset, "%m-%d"@) is Some
            &&& local_text_in(end.timestamp, end.utc_offset, "%m-%d"@) is Some
            &&& r.0 == local_text_in(start.timestamp, start.utc_offset, "%m-%d"@)->0 + "~"@
                + local_text_in(end.timestamp, end.utc_offset, "%m-%d"@)->0
            &&& r.1 == map_sum(hours_within(usage.map(), day_of(start), day_of(end)))
        }),
{
    days_are_sum_of_hours(usage.keys(), usage.values(), day_of(start), day_of(end));
}

/// The days are shown from six days ago to today, and the weeks from the one that began 27 days ago
/// to the one that ends today, each of seven days.
pub proof fn series_run_from_old_to_new(
    usage: TextMap<i64>,
    days: Seq<Option<i32>>,
    moments: Seq<LocalTime>,
)
    ensures
        day_point(usage, moments, 0) == day_entry(usage, moments[6]),
        day_point(usage, moments, 1) == day_entry(usage, moments[5]),
        day_point(usage, moments, 2) == day_entry(usage, moments[4]),
        day_point(usage, moments, 3) == day_entry(usage, moments[3]),
        day_point(usage, moments, 4) == day_entry(usage, moments[2]),
        day_point(usage, moments, 5) == day_entry(usage, moments[1]),
        day_point(usage, moments, 6) == day_entry(usage, moments[0]),
        week_point(usage, days, moments, 0) == days_entry(usage, days, moments[27], moments[21]),
        week_point(usage, days, moments, 1) == days_entry(usage, days, moments[20], moments[14]),
        week_point(usage, days, moments, 2) == days_entry(usage, days, moments[13], moments[7]),
        week_point(usage, days, moments, 3) == days_entry(usage, days, moments[6], moments[0]),
{
}

/// A server is the example exactly by the key or the number that the example has.
pub proof fn examples_are_told_by_their_key(veid: Seq<char>, api_key: Seq<char>)
    ensures
        is_example("123456"@, api_key),
        is_example(veid, "your_api_key_here"@),
        veid != "123456"@ && api_key != "your_api_key_here"@ ==> !is_example(veid, api_key),
{
}

/// A reading can be taken exactly where it adds no traffic, or where the traffic and that of its hour
/// are `i64` and the counters of the servers can be added up.
pub proof fn readings_fit_where_their_sums_do(
    h: TrafficHistory,
    server: Seq<char>,
    counter: int,
    reset: int,
    hour: Seq<char>,
)
    ensures
        ({
            let u = h.usage();
            let after = after_reading(u, server, counter, reset, hour);
            let first = !u.counters.contains_key(server) || u.counters[server] == 0;
            let last_reset = if u.resets.contains_key(server) {
                u.resets[server]
            } else {
                0
            };
            let growth = counter_growth(u.counters[server], last_reset, counter, reset);
            reading_fits_in(h, server, counter, reset, hour) <==> {
                ||| counter <= 0
                ||| first
                ||| {
                    &&& fits(growth)
                    &&& growth > 0 ==> fits(after.hourly[hour])
                    &&& running_sums_fit(
                        values_with(
                            h.server_last_counters.keys(),
                            h.server_last_counters.values(),
                            server,
                            counter,
                        ),
                    )
                }
            }
        }),
{
}

/// What the history of traffic says is what its fields hold, each under its own name.
pub proof fn histories_say_what_they_hold(h: TrafficHistory)
    ensures
        h.usage().hourly == h.hourly_usage.map(),
        h.usage().last_counter == h.last_counter,
        h.usage().last_reset == h.last_reset,
        h.usage().counters == h.server_last_counters.map(),
        h.usage().resets == h.server_last_resets.map(),
{
}

} // verus!
