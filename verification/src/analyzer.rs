//! What a server counts by itself: the requests in its access log, and the bytes of its sockets,
//! both by domain.

use crate::access_log::{VpsCounts, VpsTrafficData};
use crate::hosts::{normalize_traffic_target, traffic_target};
use crate::pattern::{compile, groups_of, regex_groups_in, Pattern};
use crate::text::{
    as_u16, char_views, chars_of, decimal, has_piece, holds_piece, is_digit, lemma_split_append,
    lemma_split_len, lemma_split_whole, lines, lines_of, opt_view, parse_u16, split, split_at_set,
    text_of, unsigned_in, words, words_of, written_numbers_read_back, CharSet,
};
use crate::text_map::{count_of, fits, grows_by, stays_under, sum_fits, TextMap};
use crate::vps::{
    first_group, group_at, received_in, sent_in, socket_bytes, StatisticsReader,
};
use std::collections::HashMap;
use vstd::prelude::*;

verus! {

broadcast use vstd::std_specs::hash::group_hash_axioms;

/// What a server has counted, the domains that its open connections go to, and the bytes of its
/// sockets when they were last looked at, the last two by the port of the client.
pub struct VpsAnalyzer {
    pub data: VpsTrafficData,
    pub port_to_domain: HashMap<u16, String>,
    pub active_connections: HashMap<u16, i64>,
    pub requests: RequestReader,
}

/// What the analyzer of a server says.
#[verifier::ext_equal]
pub struct Analysis {
    pub counts: VpsCounts,
    pub domains: Map<u16, Seq<char>>,
    pub active: Map<u16, int>,
}

impl VpsAnalyzer {
    pub open spec fn analysis(self) -> Analysis {
        Analysis {
            counts: self.data.counts(),
            domains: self.port_to_domain@.map_values(|s: String| s@),
            active: self.active_connections@.map_values(|n: i64| n as int),
        }
    }

    /// An analyzer that goes on from what was counted before.
    pub fn new(data: VpsTrafficData) -> (r: VpsAnalyzer)
        ensures
            r.analysis() == (Analysis {
                counts: data.counts(),
                domains: Map::empty(),
                active: Map::empty(),
            }),
    {
        let r = VpsAnalyzer {
            data,
            port_to_domain: HashMap::new(),
            active_connections: HashMap::new(),
            requests: RequestReader::new(),
        };
        assert(r.analysis() =~= (Analysis {
            counts: data.counts(),
            domains: Map::empty(),
            active: Map::empty(),
        }));
        r
    }
}

/// The port after the last colon of a word.
pub open spec fn port_after_colon(word: Seq<char>) -> Option<u16> {
    let parts = split(word, CharSet::One(':'));
    if parts.len() > 1 {
        as_u16(unsigned_in(parts.last()))
    } else {
        None
    }
}

fn port_of_word(word: &[char]) -> (r: Option<u16>)
    ensures
        r == port_after_colon(word@),
{
    let parts = split_at_set(word, CharSet::One(':'));
    proof {
        lemma_split_len(word@, CharSet::One(':'));
        assert(char_views(parts@).last() == parts@.last()@);
    }
    if parts.len() > 1 {
        parse_u16(parts[parts.len() - 1].as_slice())
    } else {
        None
    }
}

// ---------------------------------------------------------------------------
// Requests
// ---------------------------------------------------------------------------

/// The client's port and the target of a request that was accepted, by a line of the log and the
/// target that was found in it.
pub open spec fn request_from(line: Seq<char>, target: Option<Seq<char>>) -> Option<
    (u16, Seq<char>),
> {
    let ws = words(line);
    if ws.len() >= 5 && has_piece(line, "accepted"@) {
        match (port_after_colon(ws[2]), target) {
            (Some(port), Some(t)) => Some((port, t)),
            _ => None,
        }
    } else {
        None
    }
}

/// The target of a request that was accepted.
pub open spec fn accepted_target(line: Seq<char>) -> Option<Seq<char>> {
    first_group(regex_groups_in(r"accepted\s+(?:tcp|udp):([\w\.\-]+:\d+)"@, line))
}

/// After a request for a target from a port: it is counted, and the port goes to its host.
pub open spec fn with_request(a: Analysis, port: u16, target: Seq<char>) -> Analysis {
    let host = traffic_target(target);
    if host.len() == 0 {
        a
    } else {
        Analysis {
            counts: VpsCounts {
                traffic: a.counts.traffic,
                requests: a.counts.requests.insert(host, count_of(a.counts.requests, host) + 1),
            },
            domains: a.domains.insert(port, host),
            active: a.active,
        }
    }
}

/// The number of requests for the target can go up by one.
pub open spec fn request_fits(a: Analysis, target: Seq<char>) -> bool {
    traffic_target(target).len() > 0 ==> fits(
        count_of(a.counts.requests, traffic_target(target)) + 1,
    )
}

/// The client's port and the target of a request that was accepted, by a line of the log and the
/// target that was found in it.
pub fn request_of_line(line: &str, target: Option<String>) -> (r: Option<(u16, String)>)
    ensures
        match r {
            Some((port, t)) => request_from(line@, opt_view(target)) == Some(
                (port, t@),
            ),
            None => request_from(line@, opt_view(target)) is None,
        },
{
    let v = chars_of(line);
    let ws = words_of(v.as_slice());
    let piece = chars_of("accepted");
    if ws.len() < 5 || !holds_piece(v.as_slice(), piece.as_slice()) {
        return None;
    }
    assert(words(line@)[2] == ws@[2]@);
    match port_of_word(ws[2].as_slice()) {
        None => None,
        Some(port) => match target {
            None => None,
            Some(t) => Some((port, t)),
        },
    }
}

/// Finds the targets of requests in lines of the log.
pub struct RequestReader {
    form: Pattern,
}

impl RequestReader {
    #[verifier::type_invariant]
    spec fn inv(self) -> bool {
        self.form@ == r"accepted\s+(?:tcp|udp):([\w\.\-]+:\d+)"@
    }

    /// The form that lines are held against.
    pub closed spec fn form(self) -> Seq<char> {
        self.form@
    }

    pub fn new() -> (r: RequestReader)
        ensures
            r.form() == r"accepted\s+(?:tcp|udp):([\w\.\-]+:\d+)"@,
    {
        RequestReader { form: compile(r"accepted\s+(?:tcp|udp):([\w\.\-]+:\d+)") }
    }

    /// The client's port and the target of a request that was accepted.
    pub fn read(&self, line: &str) -> (r: Option<(u16, String)>)
        ensures
            match r {
                Some((port, t)) => request_from(line@, accepted_target(line@)) == Some((port, t@)),
                None => request_from(line@, accepted_target(line@)) is None,
            },
    {
        proof {
            use_type_invariant(self);
        }
        let groups = groups_of(&self.form, line);
        request_of_line(line, group_at(&groups, 1))
    }
}

impl VpsAnalyzer {
    /// Counts a request for a target from a port.
    pub fn note_request(&mut self, port: u16, target: &str)
        requires
            request_fits(old(self).analysis(), target@),
        ensures
            final(self).analysis() == with_request(old(self).analysis(), port, target@),
    {
        let ghost a = self.analysis();
        let host = normalize_traffic_target(target);
        if host.as_str().is_empty() {
            return;
        }
        self.data.requests.add_count(host.as_str(), 1);
        self.port_to_domain.insert(port, host);
        assert(self.analysis() =~= with_request(a, port, target@));
    }

    /// Takes in a line of the log. Says whether the number of requests could go up, if the line is
    /// that of a request; else nothing changes.
    pub fn read_log_line(&mut self, line: &str) -> (r: bool)
        ensures
            match request_from(line@, accepted_target(line@)) {
                Some((port, target)) => {
                    &&& r == request_fits(old(self).analysis(), target)
                    &&& r ==> final(self).analysis() == with_request(
                        old(self).analysis(),
                        port,
                        target,
                    )
                    &&& !r ==> final(self).analysis() == old(self).analysis()
                },
                None => r && final(self).analysis() == old(self).analysis(),
            },
    {
        match self.requests.read(line) {
            None => true,
            Some((port, t)) => {
                let host = normalize_traffic_target(t.as_str());
                if !host.as_str().is_empty() && !sum_fits(self.data.requests.count(host.as_str()), 1) {
                    return false;
                }
                self.note_request(port, t.as_str());
                true
            },
        }
    }
}

// ---------------------------------------------------------------------------
// Sockets
// ---------------------------------------------------------------------------

/// A socket of the proxy: the port of its client, and its bytes where they are known.
#[derive(Clone, Copy, Debug)]
pub struct Sighting {
    pub port: u16,
    pub total: Option<i64>,
}

/// A socket that was seen: the port of its client, and its bytes where they are known.
pub struct Seen {
    pub port: u16,
    pub total: Option<int>,
}

impl Sighting {
    pub open spec fn seen(self) -> Seen {
        Seen {
            port: self.port,
            total: match self.total {
                Some(n) => Some(n as int),
                None => None,
            },
        }
    }
}

pub open spec fn sights(s: Seq<Sighting>) -> Seq<Seen> {
    s.map_values(|x: Sighting| x.seen())
}

/// The line is that of a socket of the proxy.
pub open spec fn is_socket(line: Seq<char>) -> bool {
    regex_groups_in(r#"users:\(\("(?:v2ray|xray)""#@, line) is Some
}

/// The port of the client of a socket.
pub open spec fn client_port(line: Seq<char>) -> Option<u16> {
    if words(line).len() >= 5 {
        port_after_colon(words(line)[4])
    } else {
        None
    }
}

/// The sockets in a list of lines, in which the line after that of a socket has its statistics.
pub open spec fn sockets_in(ls: Seq<Seq<char>>) -> Seq<Seen>
    decreases ls.len(),
{
    if ls.len() == 0 {
        Seq::empty()
    } else if is_socket(ls[0]) {
        let here = match client_port(ls[0]) {
            Some(port) => seq![
                Seen {
                    port,
                    total: if ls.len() > 1 {
                        Some(socket_bytes(sent_in(ls[1]), received_in(ls[1])))
                    } else {
                        None
                    },
                },
            ],
            None => Seq::empty(),
        };
        here + sockets_in(
            if ls.len() > 1 {
                ls.skip(2)
            } else {
                Seq::empty()
            },
        )
    } else {
        sockets_in(ls.skip(1))
    }
}

/// The bytes of all sockets are `i64`.
pub open spec fn totals_fit(s: Seq<Seen>) -> bool {
    forall|i: int| 0 <= i < s.len() ==> ((#[trigger] s[i]).total matches Some(t) ==> fits(t))
}

fn client_port_of(line: &[char]) -> (r: Option<u16>)
    ensures
        r == client_port(line@),
{
    let ws = words_of(line);
    if ws.len() < 5 {
        return None;
    }
    assert(words(line@)[4] == ws@[4]@);
    port_of_word(ws[4].as_slice())
}

/// The sockets of the proxy in the list of all sockets, if their bytes are `i64`.
pub fn read_sockets(stdout: &str) -> (r: Option<Vec<Sighting>>)
    ensures
        match r {
            Some(list) => sights(list@) == sockets_in(lines(stdout@)),
            None => !totals_fit(sockets_in(lines(stdout@))),
        },
{
    let v = chars_of(stdout);
    let list = lines_of(v.as_slice());
    let ghost ls = lines(stdout@);
    let sockets = compile(r#"users:\(\("(?:v2ray|xray)""#);
    let statistics = StatisticsReader::new();
    let n: usize = list.len();
    let mut out: Vec<Sighting> = Vec::new();
    let mut i: usize = 0;
    proof {
        assert(ls.skip(0) =~= ls);
        assert(sights(out@) + sockets_in(ls) =~= sockets_in(ls));
    }
    while i < n
        invariant
            i <= n,
            n == list@.len(),
            n == ls.len(),
            ls == char_views(list@),
            ls == lines(stdout@),
            sockets@ == r#"users:\(\("(?:v2ray|xray)""#@,
            sights(out@) + sockets_in(ls.skip(i as int)) == sockets_in(ls),
        decreases n - i,
    {
        let ghost rest = ls.skip(i as int);
        let ghost before = sights(out@);
        assert(rest[0] == list@[i as int]@);
        assert(rest.skip(1) =~= ls.skip(i as int + 1));
        let line = text_of(list[i].as_slice());
        if groups_of(&sockets, line.as_str()).is_some() {
            if let Some(port) = client_port_of(list[i].as_slice()) {
                let mut total: Option<i64> = None;
                if n - i > 1 {
                    assert(rest[1] == list@[i + 1]@);
                    let next = text_of(list[i + 1].as_slice());
                    match statistics.read(next.as_str()) {
                        Some(t) => {
                            total = Some(t);
                        },
                        None => {
                            proof {
                                let whole = sockets_in(ls);
                                let at = before.len() as int;
                                assert(whole[at] == sockets_in(rest)[0]);
                                assert(!totals_fit(whole));
                            }
                            return None;
                        },
                    }
                }
                let s = Sighting { port, total };
                out.push(s);
                assert(sights(out@) =~= before.push(s.seen()));
            }
            if n - i > 1 {
                assert(rest.skip(2) =~= ls.skip(i as int + 2));
                i = i + 2;
            } else {
                assert(ls.skip(i as int + 1) =~= Seq::<Seq<char>>::empty());
                i = i + 1;
            }
            assert(sights(out@) + sockets_in(ls.skip(i as int)) =~= before + sockets_in(rest));
        } else {
            i = i + 1;
        }
    }
    assert(ls.skip(i as int) =~= Seq::<Seq<char>>::empty());
    assert(sights(out@) + sockets_in(ls.skip(i as int)) =~= sights(out@));
    Some(out)
}

/// After a socket was seen: where the domain of its client is known, the bytes since it was last
/// seen are bytes of that domain.
pub open spec fn with_sight(a: Analysis, s: Seen) -> Analysis {
    if s.total is Some && a.domains.contains_key(s.port) {
        let total = s.total->0;
        let domain = a.domains[s.port];
        let growth = total - a.active[s.port];
        Analysis {
            counts: VpsCounts {
                traffic: if a.active.contains_key(s.port) && growth > 0 {
                    a.counts.traffic.insert(domain, count_of(a.counts.traffic, domain) + growth)
                } else {
                    a.counts.traffic
                },
                requests: a.counts.requests,
            },
            domains: a.domains,
            active: a.active.insert(s.port, total),
        }
    } else {
        a
    }
}

pub open spec fn with_sights(a: Analysis, s: Seq<Seen>) -> Analysis
    decreases s.len(),
{
    if s.len() == 0 {
        a
    } else {
        with_sight(with_sights(a, s.drop_last()), s.last())
    }
}

/// The ports of the sockets.
pub open spec fn ports_in(s: Seq<Seen>) -> Set<u16> {
    Set::new(|p: u16| exists|i: int| 0 <= i < s.len() && (#[trigger] s[i]).port == p)
}

/// After all sockets were looked at: connections that are gone are forgotten.
pub open spec fn after_scan(a: Analysis, s: Seq<Seen>) -> Analysis {
    let end = with_sights(a, s);
    Analysis {
        counts: end.counts,
        domains: end.domains.restrict(ports_in(s)),
        active: end.active.restrict(ports_in(s)),
    }
}

/// Every number that comes up with a socket is an `i64`.
pub open spec fn sight_fits(a: Analysis, s: Seen) -> bool {
    s.total is Some && a.domains.contains_key(s.port) && a.active.contains_key(s.port) ==> {
        let growth = s.total->0 - a.active[s.port];
        fits(growth) && (growth > 0 ==> fits(
            count_of(a.counts.traffic, a.domains[s.port]) + growth,
        ))
    }
}

/// Every number that comes up with the sockets is an `i64`.
pub open spec fn scan_fits(a: Analysis, s: Seq<Seen>) -> bool {
    forall|n: int|
        0 <= n < s.len() ==> sight_fits(with_sights(a, #[trigger] s.take(n)), s[n])
}

proof fn lemma_domains_stay(a: Analysis, s: Seq<Seen>)
    ensures
        with_sights(a, s).domains == a.domains,
        with_sights(a, s).counts.requests == a.counts.requests,
    decreases s.len(),
{
    if s.len() > 0 {
        lemma_domains_stay(a, s.drop_last());
    }
}

impl VpsAnalyzer {
    /// The traffic and the bytes of the sockets after all of them were looked at, if every number
    /// is an `i64`.
    fn checked_scan(&self, sightings: &Vec<Sighting>) -> (r: Option<
        (TextMap<i64>, HashMap<u16, i64>),
    >)
        ensures
            ({
                let a = self.analysis();
                let s = sights(sightings@);
                match r {
                    Some((traffic, next)) => {
                        &&& scan_fits(a, s)
                        &&& traffic.map() == with_sights(a, s).counts.traffic
                        &&& a.active.union_prefer_right(next@.map_values(|n: i64| n as int))
                            == with_sights(a, s).active
                    },
                    None => !scan_fits(a, s),
                }
            }),
    {
        let ghost a = self.analysis();
        let ghost s = sights(sightings@);
        let ghost number = |n: i64| n as int;
        let mut traffic = self.data.traffic.duplicate();
        let mut next: HashMap<u16, i64> = HashMap::new();
        proof {
            assert(s.take(0) =~= Seq::<Seen>::empty());
            assert(a.active.union_prefer_right(next@.map_values(number)) =~= a.active);
        }
        for i in 0..sightings.len()
            invariant
                a == self.analysis(),
                s == sights(sightings@),
                number == (|n: i64| n as int),
                traffic.map() == with_sights(a, s.take(i as int)).counts.traffic,
                a.active.union_prefer_right(next@.map_values(number)) == with_sights(
                    a,
                    s.take(i as int),
                ).active,
                forall|n: int|
                    0 <= n < i ==> sight_fits(with_sights(a, #[trigger] s.take(n)), s[n]),
        {
            let x = sightings[i];
            let ghost here = with_sights(a, s.take(i as int));
            let ghost before = next@;
            proof {
                assert(s.take(i as int + 1).drop_last() =~= s.take(i as int));
                assert(s.take(i as int + 1).last() == x.seen());
                assert(s[i as int] == x.seen());
                lemma_domains_stay(a, s.take(i as int));
            }
            if let Some(total) = x.total {
                if let Some(domain) = self.port_to_domain.get(&x.port) {
                    let last = match next.get(&x.port) {
                        Some(n) => Some(*n),
                        None => match self.active_connections.get(&x.port) {
                            Some(n) => Some(*n),
                            None => None,
                        },
                    };
                    if let Some(n) = last {
                        assert(here.active[x.port] == n);
                        match total.checked_sub(n) {
                            None => {
                                assert(!sight_fits(
                                    with_sights(a, s.take(i as int)),
                                    s[i as int],
                                ));
                                return None;
                            },
                            Some(growth) => {
                                if growth > 0 {
                                    if !sum_fits(traffic.count(domain.as_str()), growth) {
                                        assert(!sight_fits(
                                            with_sights(a, s.take(i as int)),
                                            s[i as int],
                                        ));
                                        return None;
                                    }
                                    traffic.add_count(domain.as_str(), growth);
                                }
                            },
                        }
                    } else {
                        assert(!here.active.contains_key(x.port));
                    }
                    next.insert(x.port, total);
                    assert(a.active.union_prefer_right(next@.map_values(number))
                        =~= here.active.insert(x.port, total as int));
                }
            }
            assert(sight_fits(with_sights(a, s.take(i as int)), s[i as int]));
        }
        assert(s.take(s.len() as int) =~= s);
        Some((traffic, next))
    }

    /// Whether every number that comes up with the sockets is an `i64`.
    pub fn can_scan(&self, sightings: &Vec<Sighting>) -> (r: bool)
        ensures
            r == scan_fits(self.analysis(), sights(sightings@)),
    {
        self.checked_scan(sightings).is_some()
    }

    /// Looks at all sockets: counts their bytes by domain, and forgets the connections that are
    /// gone.
    pub fn scan(&mut self, sightings: &Vec<Sighting>)
        requires
            scan_fits(old(self).analysis(), sights(sightings@)),
        ensures
            final(self).analysis() == after_scan(old(self).analysis(), sights(sightings@)),
    {
        let ghost a = self.analysis();
        let ghost s = sights(sightings@);
        let ghost number = |n: i64| n as int;
        let ghost text = |t: String| t@;
        let (traffic, next) = match self.checked_scan(sightings) {
            Some(x) => x,
            None => {
                return;
            },
        };
        let mut active: HashMap<u16, i64> = HashMap::new();
        let mut domains: HashMap<u16, String> = HashMap::new();
        let ghost end = with_sights(a, s);
        proof {
            lemma_domains_stay(a, s);
            assert(s.take(0) =~= Seq::<Seen>::empty());
            assert(active@.map_values(number) =~= end.active.restrict(ports_in(s.take(0))));
            assert(domains@.map_values(text) =~= end.domains.restrict(ports_in(s.take(0))));
        }
        for i in 0..sightings.len()
            invariant
                a == self.analysis(),
                s == sights(sightings@),
                number == (|n: i64| n as int),
                text == (|t: String| t@),
                end == with_sights(a, s),
                end.domains == a.domains,
                a.active.union_prefer_right(next@.map_values(number)) == end.active,
                active@.map_values(number) == end.active.restrict(ports_in(s.take(i as int))),
                domains@.map_values(text) == end.domains.restrict(ports_in(s.take(i as int))),
        {
            let port: u16 = sightings[i].port;
            let ghost before = ports_in(s.take(i as int));
            let ghost after = ports_in(s.take(i as int + 1));
            let ghost active_before = active@;
            let ghost domains_before = domains@;
            proof {
                assert(s[i as int].port == port);
                lemma_ports_push(s, i as int);
            }
            if let Some(n) = next.get(&port) {
                active.insert(port, *n);
            } else if let Some(n) = self.active_connections.get(&port) {
                active.insert(port, *n);
            }
            if let Some(d) = self.port_to_domain.get(&port) {
                domains.insert(port, d.clone());
            }
            proof {
                assert(active@.map_values(number) =~= end.active.restrict(after)) by {
                    assert(active_before.map_values(number) =~= end.active.restrict(before));
                    assert forall|p: u16| #[trigger]
                        active@.map_values(number).contains_key(p) <==> end.active.restrict(
                            after,
                        ).contains_key(p) by {
                        assert(active_before.map_values(number).contains_key(p)
                            <==> end.active.restrict(before).contains_key(p));
                    }
                    assert forall|p: u16| #[trigger]
                        active@.map_values(number).contains_key(p) implies active@.map_values(
                        number,
                    )[p] == end.active.restrict(after)[p] by {
                        if p != port {
                            assert(active_before.map_values(number).contains_key(p));
                            assert(active_before.map_values(number)[p] == end.active.restrict(
                                before,
                            )[p]);
                        }
                    }
                }
                assert(domains@.map_values(text) =~= end.domains.restrict(after)) by {
                    assert forall|p: u16| #[trigger]
                        domains@.map_values(text).contains_key(p) <==> end.domains.restrict(
                            after,
                        ).contains_key(p) by {
                        assert(domains_before.map_values(text).contains_key(p)
                            <==> end.domains.restrict(before).contains_key(p));
                    }
                    assert forall|p: u16| #[trigger]
                        domains@.map_values(text).contains_key(p) implies domains@.map_values(
                        text,
                    )[p] == end.domains.restrict(after)[p] by {
                        if p != port {
                            assert(domains_before.map_values(text).contains_key(p));
                            assert(domains_before.map_values(text)[p] == end.domains.restrict(
                                before,
                            )[p]);
                        }
                    }
                }
            }
        }
        assert(s.take(s.len() as int) =~= s);
        self.data.traffic = traffic;
        self.active_connections = active;
        self.port_to_domain = domains;
        assert(self.analysis() =~= after_scan(a, s));
    }

    /// Looks at all sockets in a list of them. Says whether every number is an `i64`; where one is
    /// not, nothing changes.
    pub fn scan_list(&mut self, stdout: &str) -> (r: bool)
        ensures
            ({
                let a = old(self).analysis();
                let s = sockets_in(lines(stdout@));
                &&& r ==> scan_fits(a, s) && final(self).analysis() == after_scan(a, s)
                &&& !r ==> !(totals_fit(s) && scan_fits(a, s)) && final(self).analysis() == a
            }),
    {
        match read_sockets(stdout) {
            None => false,
            Some(sightings) => {
                if !self.can_scan(&sightings) {
                    return false;
                }
                self.scan(&sightings);
                true
            },
        }
    }
}

proof fn lemma_ports_push(s: Seq<Seen>, i: int)
    requires
        0 <= i < s.len(),
    ensures
        ports_in(s.take(i + 1)) == ports_in(s.take(i)).insert(s[i].port),
{
    let a = s.take(i);
    let b = s.take(i + 1);
    assert forall|p: u16| #[trigger] ports_in(b).contains(p) <==> ports_in(a).insert(
        s[i].port,
    ).contains(p) by {
        if ports_in(b).contains(p) {
            let j = choose|j: int| 0 <= j < b.len() && (#[trigger] b[j]).port == p;
            if j < i {
                assert(a[j].port == p);
            }
        }
        if ports_in(a).contains(p) {
            let j = choose|j: int| 0 <= j < a.len() && (#[trigger] a[j]).port == p;
            assert(b[j].port == p);
        }
        assert(b[i].port == s[i].port);
    }
    assert(ports_in(b) =~= ports_in(a).insert(s[i].port));
}

/// Looking at the sockets never takes traffic away from a domain, and changes no number of
/// requests.
pub proof fn scan_only_adds(a: Analysis, s: Seq<Seen>, domain: Seq<char>)
    ensures
        count_of(after_scan(a, s).counts.traffic, domain) >= count_of(a.counts.traffic, domain),
        after_scan(a, s).counts.requests == a.counts.requests,
    decreases s.len(),
{
    lemma_domains_stay(a, s);
    if s.len() > 0 {
        scan_only_adds(a, s.drop_last(), domain);
    }
}

/// After the sockets were looked at only connections that were among them are remembered, so that
/// what is remembered is bounded by what is open.
pub proof fn gone_connections_are_forgotten(a: Analysis, s: Seq<Seen>)
    ensures
        after_scan(a, s).domains.dom().subset_of(ports_in(s)),
        after_scan(a, s).active.dom().subset_of(ports_in(s)),
{
}

/// A socket that is seen for the first time adds no traffic.
pub proof fn first_sight_adds_nothing(a: Analysis, s: Seen)
    requires
        !a.active.contains_key(s.port),
    ensures
        with_sight(a, s).counts == a.counts,
{
}

// ---------------------------------------------------------------------------
// What a request and a socket add
// ---------------------------------------------------------------------------

/// A request for a target with a host makes the number of requests of that host grow by one, and its
/// port then goes to that host; nothing else changes. A request for a target without a host changes
/// nothing.
pub proof fn requests_are_counted_by_host(
    a: Analysis,
    port: u16,
    target: Seq<char>,
    other: Seq<char>,
    other_port: u16,
)
    requires
        other != traffic_target(target),
        other_port != port,
    ensures
        ({
            let after = with_request(a, port, target);
            let host = traffic_target(target);
            &&& host.len() == 0 ==> after == a
            &&& host.len() > 0 ==> {
                &&& grows_by(a.counts.requests, after.counts.requests, host, 1)
                &&& stays_under(a.counts.requests, after.counts.requests, other)
                &&& after.counts.traffic == a.counts.traffic
                &&& after.domains.contains_key(port)
                &&& after.domains[port] == host
                &&& after.domains.contains_key(other_port) == a.domains.contains_key(other_port)
                &&& after.domains[other_port] == a.domains[other_port]
                &&& after.active == a.active
            }
        }),
{
}

/// A line of the log is that of a request where it has five words or more and says that the request
/// was accepted, its third word ends in a port, and a target was found in it; then it gives that port
/// and that target.
pub proof fn requests_give_port_and_target(line: Seq<char>, target: Option<Seq<char>>)
    ensures
        request_from(line, target) is Some <==> words(line).len() >= 5 && has_piece(
            line,
            "accepted"@,
        ) && port_after_colon(words(line)[2]) is Some && target is Some,
        request_from(line, target) is Some ==> request_from(line, target) == Some(
            (port_after_colon(words(line)[2])->0, target->0),
        ),
{
}

/// The port of a word is what its last colon has after it, where that is a number of 16 bits.
pub proof fn ports_follow_the_last_colon(host: Seq<char>, n: nat, other: Seq<char>)
    requires
        !other.contains(':'),
    ensures
        n < 65536 ==> port_after_colon(host + ":"@ + decimal(n)) == Some(n as u16),
        n >= 65536 ==> port_after_colon(host + ":"@ + decimal(n)) is None,
        port_after_colon(other) is None,
{
    reveal_strlit(":");
    let colon = CharSet::One(':');
    written_numbers_read_back(n);
    let d = decimal(n);
    assert forall|i: int| 0 <= i < d.len() implies !colon.has(#[trigger] d[i]) by {
        assert(is_digit(d[i]));
    }
    assert(host.push(':') + d =~= host + ":"@ + d);
    lemma_split_append(host, ':', d, colon);
    lemma_split_len(host, colon);
    assert forall|i: int| 0 <= i < other.len() implies !colon.has(#[trigger] other[i]) by {
        if other[i] == ':' {
            assert(other.contains(':'));
        }
    }
    lemma_split_whole(other, colon);
}

/// A socket is remembered with its bytes where they are known and the domain of its client is. Where
/// it was remembered with fewer bytes, the bytes of that domain grow by what is new; a total that
/// fell, or that is seen for the first time, adds nothing. No other domain changes.
pub proof fn sockets_add_what_is_new(a: Analysis, s: Seen, other: Seq<char>, other_port: u16)
    requires
        other_port != s.port,
        a.domains.contains_key(s.port) ==> other != a.domains[s.port],
    ensures
        ({
            let after = with_sight(a, s);
            let known = s.total is Some && a.domains.contains_key(s.port);
            let domain = a.domains[s.port];
            let total = s.total->0;
            let last = a.active[s.port];
            &&& after.domains == a.domains
            &&& after.counts.requests == a.counts.requests
            &&& !known ==> after == a
            &&& known ==> {
                &&& after.active.contains_key(s.port)
                &&& after.active[s.port] == total
                &&& after.active.contains_key(other_port) == a.active.contains_key(other_port)
                &&& after.active[other_port] == a.active[other_port]
                &&& stays_under(a.counts.traffic, after.counts.traffic, other)
                &&& a.active.contains_key(s.port) && total > last ==> grows_by(
                    a.counts.traffic,
                    after.counts.traffic,
                    domain,
                    total - last,
                )
                &&& !a.active.contains_key(s.port) || total <= last ==> after.counts.traffic
                    == a.counts.traffic
            }
        }),
{
}

/// A scan looks at one socket after the other.
pub proof fn sockets_are_looked_at_in_turn(a: Analysis, s: Seq<Seen>, x: Seen)
    ensures
        with_sights(a, Seq::empty()) == a,
        with_sights(a, s.push(x)) == with_sight(with_sights(a, s), x),
{
    assert(s.push(x).drop_last() =~= s);
}

/// After a scan what is counted is what the sockets have added; of a connection that was among them
/// everything is remembered, and of any other nothing.
pub proof fn open_connections_are_remembered(a: Analysis, s: Seq<Seen>, port: u16)
    ensures
        ({
            let end = with_sights(a, s);
            let after = after_scan(a, s);
            let open = exists|i: int| 0 <= i < s.len() && (#[trigger] s[i]).port == port;
            &&& after.counts == end.counts
            &&& open ==> {
                &&& after.domains.contains_key(port) == a.domains.contains_key(port)
                &&& a.domains.contains_key(port) ==> after.domains[port] == a.domains[port]
                &&& after.active.contains_key(port) == end.active.contains_key(port)
                &&& end.active.contains_key(port) ==> after.active[port] == end.active[port]
            }
            &&& !open ==> !after.domains.contains_key(port) && !after.active.contains_key(port)
        }),
{
    lemma_domains_stay(a, s);
    assert(ports_in(s).contains(port) <==> exists|i: int|
        0 <= i < s.len() && (#[trigger] s[i]).port == port);
}

/// In a list of sockets the line after that of a socket has its bytes, and is no socket itself. A
/// line that is no socket is passed over, and so is a socket whose client has no port.
pub proof fn sockets_are_read_with_their_statistics(
    line: Seq<char>,
    stats: Seq<char>,
    rest: Seq<Seq<char>>,
)
    ensures
        sockets_in(Seq::empty()).len() == 0,
        !is_socket(line) ==> sockets_in(seq![line] + rest) == sockets_in(rest),
        is_socket(line) && client_port(line) is None ==> sockets_in(seq![line, stats] + rest)
            == sockets_in(rest),
        is_socket(line) && client_port(line) is Some ==> {
            let all = sockets_in(seq![line, stats] + rest);
            &&& all.len() == sockets_in(rest).len() + 1
            &&& all[0].port == client_port(line)->0
            &&& all[0].total == Some(socket_bytes(sent_in(stats), received_in(stats)))
            &&& all.skip(1) == sockets_in(rest)
        },
        words(line).len() >= 5 ==> client_port(line) == port_after_colon(words(line)[4]),
        words(line).len() < 5 ==> client_port(line) is None,
{
    assert((seq![line] + rest).skip(1) =~= rest);
    assert((seq![line, stats] + rest).skip(2) =~= rest);
    if is_socket(line) {
        let all = sockets_in(seq![line, stats] + rest);
        if client_port(line) is Some {
            assert(all.skip(1) =~= sockets_in(rest));
        } else {
            assert(all =~= sockets_in(rest));
        }
    }
}

/// A request fits exactly where the number of requests of its host is an `i64` afterwards; a socket
/// where the difference to its last total is one, and the bytes of its domain are one afterwards.
pub proof fn counts_fit_where_their_sums_do(a: Analysis, port: u16, target: Seq<char>, s: Seen)
    ensures
        request_fits(a, target) <==> traffic_target(target).len() == 0 || fits(
            with_request(a, port, target).counts.requests[traffic_target(target)],
        ),
        sight_fits(a, s) <==> {
            ||| s.total is None
            ||| !a.domains.contains_key(s.port)
            ||| !a.active.contains_key(s.port)
            ||| {
                &&& fits(s.total->0 - a.active[s.port])
                &&& s.total->0 > a.active[s.port] ==> fits(
                    with_sight(a, s).counts.traffic[a.domains[s.port]],
                )
            }
        },
{
}

/// The forms that lines are held against: that of a request which was accepted, and that of a socket
/// of the proxy.
pub proof fn lines_are_held_against_their_forms(line: Seq<char>)
    ensures
        ({
            let g = regex_groups_in(r"accepted\s+(?:tcp|udp):([\w\.\-]+:\d+)"@, line);
            &&& g is Some && g->0.len() > 1 ==> accepted_target(line) == g->0[1]
            &&& g is None ==> accepted_target(line) is None
        }),
        is_socket(line) <==> regex_groups_in(r#"users:\(\("(?:v2ray|xray)""#@, line) is Some,
{
}

/// The sockets can be looked at exactly where all but the last can, and then the last.
pub proof fn scans_fit_where_their_sockets_do(a: Analysis, s: Seq<Seen>, x: Seen)
    ensures
        scan_fits(a, Seq::empty()),
        scan_fits(a, s.push(x)) <==> scan_fits(a, s) && sight_fits(with_sights(a, s), x),
{
    let all = s.push(x);
    let n = s.len() as int;
    assert(all.take(n) =~= s);
    assert(all[n] == x);
    assert forall|i: int| 0 <= i < n implies #[trigger] all.take(i) == s.take(i) && all[i]
        == s[i] by {
        assert(all.take(i) =~= s.take(i));
    }
    if scan_fits(a, all) {
        assert(sight_fits(with_sights(a, all.take(n)), all[n]));
        assert forall|i: int| 0 <= i < n implies sight_fits(
            with_sights(a, #[trigger] s.take(i)),
            s[i],
        ) by {
            assert(all.take(i) == s.take(i));
        }
    }
    if scan_fits(a, s) && sight_fits(with_sights(a, s), x) {
        assert forall|i: int| 0 <= i < all.len() implies sight_fits(
            with_sights(a, #[trigger] all.take(i)),
            all[i],
        ) by {
            if i < n {
                assert(all.take(i) == s.take(i));
            }
        }
    }
}

/// What an analyzer says is what its fields hold, by port; and so it is with a socket that was seen.
pub proof fn analyzers_say_what_they_hold(a: VpsAnalyzer, s: Sighting, port: u16)
    ensures
        a.analysis().counts == a.data.counts(),
        a.analysis().domains.contains_key(port) == a.port_to_domain@.contains_key(port),
        a.port_to_domain@.contains_key(port) ==> a.analysis().domains[port]
            == a.port_to_domain@[port]@,
        a.analysis().active.contains_key(port) == a.active_connections@.contains_key(port),
        a.active_connections@.contains_key(port) ==> a.analysis().active[port]
            == a.active_connections@[port],
        s.seen().port == s.port,
        s.seen().total is Some <==> s.total is Some,
        s.total is Some ==> s.seen().total->0 == s.total->0,
{
}

} // verus!
