//! The bytes that each proxied connection has moved since the connections were last looked at.

use crate::classify::{
    bytes_of, classify_proxy_domain_with_suffixes, configured_direct_suffixes,
    merge_classified_delta, merged, suffixes_by, verdict_on, Classified, ClassifiedDomainDelta,
};
use crate::hosts::{
    configured_control_domain_suffixes, control_domains_by, is_control, is_control_domain,
    RoutingSettings,
};
use crate::text::{opt_view, same_text, views};
use crate::text_map::{count_of, fits, lemma_sum_insert, map_sum, sum_fits, Model, TextMap};
use vstd::prelude::*;

verus! {

// ---------------------------------------------------------------------------
// Types
// ---------------------------------------------------------------------------

/// Where a connection goes to.
#[derive(Debug)]
pub struct ClashConnectionMetadata {
    pub host: String,
    pub destination_ip: Option<String>,
}

/// One open connection with the bytes it has moved so far.
#[derive(Debug)]
pub struct ClashConnection {
    pub id: String,
    pub metadata: ClashConnectionMetadata,
    pub upload: i64,
    pub download: i64,
    /// The outbounds that the connection goes through, beginning with the last one chosen.
    pub chains: Vec<String>,
}

/// All open connections, and the bytes moved since the proxy was started.
#[derive(Debug)]
pub struct ClashAPIConnections {
    pub download_total: i64,
    pub upload_total: i64,
    pub connections: Option<Vec<ClashConnection>>,
}

/// The bytes that were moved in one round.
pub struct ProxyDeltaBatch {
    pub download_delta: i64,
    pub upload_delta: i64,
    pub domain_deltas: TextMap<i64>,
    pub abnormal_domain_deltas: TextMap<ClassifiedDomainDelta>,
}

/// What a batch says.
#[verifier::ext_equal]
pub struct Batch {
    pub download: int,
    pub upload: int,
    pub domains: Map<Seq<char>, int>,
    pub abnormal: Map<Seq<char>, Classified>,
}

impl ProxyDeltaBatch {
    pub open spec fn batch(self) -> Batch {
        Batch {
            download: self.download_delta as int,
            upload: self.upload_delta as int,
            domains: self.domain_deltas.map(),
            abnormal: self.abnormal_domain_deltas.map(),
        }
    }
}

pub open spec fn empty_batch() -> Batch {
    Batch { download: 0, upload: 0, domains: Map::empty(), abnormal: Map::empty() }
}

impl Default for ProxyDeltaBatch {
    fn default() -> (r: Self)
        ensures
            r.batch() == empty_batch(),
    {
        ProxyDeltaBatch {
            download_delta: 0,
            upload_delta: 0,
            domain_deltas: TextMap::new(),
            abnormal_domain_deltas: TextMap::new(),
        }
    }
}

/// What was last seen of a connection.
#[verifier::ext_equal]
pub struct Seen {
    pub host: Seq<char>,
    pub download: int,
    pub upload: int,
}

impl Model for (String, i64, i64) {
    type M = Seen;

    open spec fn model(&self) -> Seen {
        Seen { host: self.0@, download: self.1 as int, upload: self.2 as int }
    }

    fn duplicate(&self) -> (r: (String, i64, i64)) {
        (self.0.clone(), self.1, self.2)
    }
}

/// Remembers the host, the download and the upload of every connection that is counted, by its
/// id.
pub struct ClientTrafficTracker {
    pub active_conns: TextMap<(String, i64, i64)>,
}

impl Default for ClientTrafficTracker {
    fn default() -> (r: Self)
        ensures
            r.active_conns.map() == Map::<Seq<char>, Seen>::empty(),
    {
        ClientTrafficTracker { active_conns: TextMap::new() }
    }
}

// ---------------------------------------------------------------------------
// One round
// ---------------------------------------------------------------------------

/// The name under which a connection is counted: its host, or its address where it has none.
pub open spec fn named_host(c: ClashConnection) -> Seq<char> {
    if c.metadata.host@.len() == 0 {
        match c.metadata.destination_ip {
            Some(ip) => ip@,
            None => "未知IP"@,
        }
    } else {
        c.metadata.host@
    }
}

/// The host under which a connection is counted, if it is. It is counted where its first outbound
/// is the proxy, it has a host, and the host does not belong to the control plane.
pub open spec fn counted_host(c: ClashConnection, control: Seq<Seq<char>>) -> Option<Seq<char>> {
    let host = named_host(c);
    if c.chains@.len() > 0 && c.chains@[0]@ == "proxy"@ && host.len() > 0 && !is_control(
        host,
        control,
    ) {
        Some(host)
    } else {
        None
    }
}

/// How far a counter has grown.
pub open spec fn growth(before: int, now: int) -> int {
    if now > before {
        now - before
    } else {
        0
    }
}

/// The connections that are remembered and the bytes that were counted.
#[verifier::ext_equal]
pub struct Round {
    pub known: Map<Seq<char>, Seen>,
    pub batch: Batch,
}

/// The bytes that a connection has moved since it was last seen: download, upload. A connection
/// that was not seen before has moved none.
pub open spec fn moved(known: Map<Seq<char>, Seen>, c: ClashConnection) -> (int, int) {
    if known.contains_key(c.id@) {
        (
            growth(known[c.id@].download, c.download as int),
            growth(known[c.id@].upload, c.upload as int),
        )
    } else {
        (0, 0)
    }
}

/// The batch after `download` and `upload` more bytes of `host`.
pub open spec fn counted(
    b: Batch,
    host: Seq<char>,
    download: int,
    upload: int,
    suffixes: Seq<Seq<char>>,
) -> Batch {
    let total = download + upload;
    if total > 0 {
        Batch {
            download: b.download + download,
            upload: b.upload + upload,
            domains: b.domains.insert(host, count_of(b.domains, host) + total),
            abnormal: if verdict_on(host, suffixes).should_proxy {
                b.abnormal
            } else {
                merged(b.abnormal, host, total, verdict_on(host, suffixes))
            },
        }
    } else {
        b
    }
}

/// After one more connection.
pub open spec fn after_connection(
    r: Round,
    c: ClashConnection,
    control: Seq<Seq<char>>,
    suffixes: Seq<Seq<char>>,
) -> Round {
    match counted_host(c, control) {
        Some(host) => Round {
            known: r.known.insert(
                c.id@,
                (Seen { host, download: c.download as int, upload: c.upload as int }),
            ),
            batch: counted(
                r.batch,
                host,
                moved(r.known, c).0,
                moved(r.known, c).1,
                suffixes,
            ),
        },
        None => r,
    }
}

/// After several connections, one after the other.
pub open spec fn after_connections(
    r: Round,
    conns: Seq<ClashConnection>,
    control: Seq<Seq<char>>,
    suffixes: Seq<Seq<char>>,
) -> Round
    decreases conns.len(),
{
    if conns.len() == 0 {
        r
    } else {
        after_connection(
            after_connections(r, conns.drop_last(), control, suffixes),
            conns.last(),
            control,
            suffixes,
        )
    }
}

/// `id` is the id of a connection that is counted.
pub open spec fn counts_id(
    conns: Seq<ClashConnection>,
    control: Seq<Seq<char>>,
    id: Seq<char>,
) -> bool {
    exists|i: int|
        0 <= i < conns.len() && (#[trigger] conns[i]).id@ == id && counted_host(
            conns[i],
            control,
        ) is Some
}

/// The ids of the connections that are counted.
pub open spec fn counted_ids(conns: Seq<ClashConnection>, control: Seq<Seq<char>>) -> Set<
    Seq<char>,
> {
    Set::new(|id: Seq<char>| counts_id(conns, control, id))
}

/// A whole round that begins with the connections in `known`: every connection is counted, and
/// those that are no longer there are forgotten.
pub open spec fn round_of(
    known: Map<Seq<char>, Seen>,
    conns: Seq<ClashConnection>,
    control: Seq<Seq<char>>,
    suffixes: Seq<Seq<char>>,
) -> Round {
    let end = after_connections(
        Round { known, batch: empty_batch() },
        conns,
        control,
        suffixes,
    );
    Round { known: end.known.restrict(counted_ids(conns, control)), batch: end.batch }
}

/// Every number that comes up in counting a connection is an `i64`.
pub open spec fn connection_fits(
    r: Round,
    c: ClashConnection,
    control: Seq<Seq<char>>,
    suffixes: Seq<Seq<char>>,
) -> bool {
    match counted_host(c, control) {
        Some(host) => r.known.contains_key(c.id@) ==> {
            let (download, upload) = moved(r.known, c);
            let total = download + upload;
            &&& fits(c.download - r.known[c.id@].download)
            &&& fits(c.upload - r.known[c.id@].upload)
            &&& fits(total)
            &&& total > 0 ==> {
                &&& fits(r.batch.download + download)
                &&& fits(r.batch.upload + upload)
                &&& fits(count_of(r.batch.domains, host) + total)
                &&& !verdict_on(host, suffixes).should_proxy ==> fits(
                    bytes_of(r.batch.abnormal, host) + total,
                )
            }
        },
        None => true,
    }
}

/// Every number that comes up in a round is an `i64`.
pub open spec fn round_fits(
    known: Map<Seq<char>, Seen>,
    conns: Seq<ClashConnection>,
    control: Seq<Seq<char>>,
    suffixes: Seq<Seq<char>>,
) -> bool {
    forall|n: int|
        0 <= n < conns.len() ==> connection_fits(
            after_connections(
                Round { known, batch: empty_batch() },
                #[trigger] conns.take(n),
                control,
                suffixes,
            ),
            conns[n],
            control,
            suffixes,
        )
}

/// The host under which a connection is counted, if it is.
fn host_counted(c: &ClashConnection, control_domains: &Vec<String>) -> (r: Option<String>)
    ensures
        opt_view(r) == counted_host(*c, views(control_domains@)),
{
    if c.chains.len() == 0 || !same_text(c.chains[0].as_str(), "proxy") {
        return None;
    }
    let host = if c.metadata.host.as_str().is_empty() {
        match &c.metadata.destination_ip {
            Some(ip) => ip.clone(),
            None => "未知IP".to_owned(),
        }
    } else {
        c.metadata.host.clone()
    };
    if host.as_str().is_empty() || is_control_domain(host.as_str(), control_domains) {
        None
    } else {
        Some(host)
    }
}

/// How far a counter has grown, if the difference is an `i64`.
fn checked_growth(before: i64, now: i64) -> (r: Option<i64>)
    ensures
        match r {
            Some(g) => fits(now - before) && g == growth(before as int, now as int),
            None => !fits(now - before),
        },
{
    match now.checked_sub(before) {
        Some(d) => if d > 0 {
            Some(d)
        } else {
            Some(0)
        },
        None => None,
    }
}

impl ProxyDeltaBatch {
    /// Counts bytes of a host, if every sum is an `i64`.
    fn count_host(
        &mut self,
        host: &str,
        download: i64,
        upload: i64,
        direct_suffixes: &Vec<String>,
    ) -> (r: bool)
        requires
            download >= 0,
            upload >= 0,
        ensures
            r == {
                let b = old(self).batch();
                let total = download + upload;
                fits(total) && (total > 0 ==> {
                    &&& fits(b.download + download)
                    &&& fits(b.upload + upload)
                    &&& fits(count_of(b.domains, host@) + total)
                    &&& !verdict_on(host@, views(direct_suffixes@)).should_proxy ==> fits(
                        bytes_of(b.abnormal, host@) + total,
                    )
                })
            },
            r ==> final(self).batch() == counted(
                old(self).batch(),
                host@,
                download as int,
                upload as int,
                views(direct_suffixes@),
            ),
    {
        if !sum_fits(download, upload) {
            return false;
        }
        let total: i64 = download + upload;
        if total == 0 {
            return true;
        }
        if !sum_fits(self.download_delta, download) || !sum_fits(self.upload_delta, upload)
            || !sum_fits(self.domain_deltas.count(host), total) {
            return false;
        }
        let classification = classify_proxy_domain_with_suffixes(host, direct_suffixes);
        if !classification.should_proxy {
            if !sum_fits(self.abnormal_domain_deltas.bytes(host), total) {
                return false;
            }
            merge_classified_delta(&mut self.abnormal_domain_deltas, host, total, &classification);
        }
        self.download_delta = self.download_delta + download;
        self.upload_delta = self.upload_delta + upload;
        self.domain_deltas.add_count(host, total);
        true
    }
}

impl ClientTrafficTracker {
    /// The batch of a round and the connections to remember after it, if every number in it is an
    /// `i64`.
    fn checked_round(
        &self,
        connections: &Vec<ClashConnection>,
        control_domains: &Vec<String>,
        direct_suffixes: &Vec<String>,
    ) -> (r: Option<(ProxyDeltaBatch, TextMap<(String, i64, i64)>)>)
        ensures
            match r {
                Some((batch, next)) => {
                    let end = round_of(
                        self.active_conns.map(),
                        connections@,
                        views(control_domains@),
                        views(direct_suffixes@),
                    );
                    &&& round_fits(
                        self.active_conns.map(),
                        connections@,
                        views(control_domains@),
                        views(direct_suffixes@),
                    )
                    &&& batch.batch() == end.batch
                    &&& next.map() == end.known
                },
                None => !round_fits(
                    self.active_conns.map(),
                    connections@,
                    views(control_domains@),
                    views(direct_suffixes@),
                ),
            },
    {
        let mut batch = ProxyDeltaBatch::default();
        let mut next: TextMap<(String, i64, i64)> = TextMap::new();
        let ghost control = views(control_domains@);
        let ghost suffixes = views(direct_suffixes@);
        let ghost old_known = self.active_conns.map();
        let ghost start = Round { known: old_known, batch: empty_batch() };
        let ghost all = connections@;
        proof {
            assert(all.take(0) =~= Seq::<ClashConnection>::empty());
            assert(old_known.union_prefer_right(Map::empty()) =~= old_known);
        }
        for i in 0..connections.len()
            invariant
                control == views(control_domains@),
                suffixes == views(direct_suffixes@),
                all == connections@,
                old_known == self.active_conns.map(),
                start == (Round { known: old_known, batch: empty_batch() }),
                after_connections(start, all.take(i as int), control, suffixes) == (Round {
                    known: old_known.union_prefer_right(next.map()),
                    batch: batch.batch(),
                }),
                forall|id: Seq<char>| #[trigger]
                    next.map().contains_key(id) <==> counts_id(all.take(i as int), control, id),
                forall|n: int|
                    0 <= n < i ==> connection_fits(
                        after_connections(start, #[trigger] all.take(n), control, suffixes),
                        all[n],
                        control,
                        suffixes,
                    ),
        {
            let c = &connections[i];
            let ghost here = all.take(i as int);
            let ghost there = all.take(i as int + 1);
            let ghost r = after_connections(start, here, control, suffixes);
            let ghost before = next.map();
            proof {
                assert(there.drop_last() =~= here);
                assert(there.last() == *c);
                assert(there =~= here.push(*c));
            }
            match host_counted(c, control_domains) {
                None => {
                    proof {
                        assert forall|id: Seq<char>| #[trigger]
                            next.map().contains_key(id) <==> counts_id(there, control, id) by {
                            lemma_counts_id_push(here, *c, control, id);
                        }
                        assert(connection_fits(r, all[i as int], control, suffixes));
                    }
                },
                Some(host) => {
                    let id = c.id.as_str();
                    let seen = match next.get(id) {
                        Some(s) => Some((s.1, s.2)),
                        None => match self.active_conns.get(id) {
                            Some(s) => Some((s.1, s.2)),
                            None => None,
                        },
                    };
                    if let Some((last_download, last_upload)) = seen {
                        assert(r.known.contains_key(c.id@));
                        let download = checked_growth(last_download, c.download);
                        let upload = checked_growth(last_upload, c.upload);
                        let ok = match (download, upload) {
                            (Some(d), Some(u)) => batch.count_host(
                                host.as_str(),
                                d,
                                u,
                                direct_suffixes,
                            ),
                            _ => false,
                        };
                        if !ok {
                            assert(!connection_fits(
                                after_connections(start, all.take(i as int), control, suffixes),
                                all[i as int],
                                control,
                                suffixes,
                            ));
                            return None;
                        }
                    }
                    next.insert(c.id.clone(), (host, c.download, c.upload));
                    proof {
                        assert(connection_fits(r, all[i as int], control, suffixes));
                        assert(old_known.union_prefer_right(next.map())
                            =~= old_known.union_prefer_right(before).insert(
                            c.id@,
                            next.map()[c.id@],
                        ));
                        assert forall|id: Seq<char>| #[trigger]
                            next.map().contains_key(id) <==> counts_id(there, control, id) by {
                            lemma_counts_id_push(here, *c, control, id);
                            assert(before.contains_key(id) <==> counts_id(here, control, id));
                        }
                        assert(after_connections(start, there, control, suffixes) =~= (Round {
                            known: old_known.union_prefer_right(next.map()),
                            batch: batch.batch(),
                        }));
                    }
                },
            }
        }
        proof {
            assert(all.take(all.len() as int) =~= all);
            let ids = counted_ids(all, control);
            assert(old_known.union_prefer_right(next.map()).restrict(ids) =~= next.map()) by {
                assert forall|id: Seq<char>| #[trigger]
                    ids.contains(id) <==> next.map().contains_key(id) by {
                    assert(next.map().contains_key(id) <==> counts_id(all, control, id));
                }
            }
        }
        Some((batch, next))
    }

    /// The batch of a round, if every number in it is an `i64`; nothing is remembered of the round.
    pub fn peek(
        &self,
        connections: &Vec<ClashConnection>,
        control_domains: &Vec<String>,
        direct_suffixes: &Vec<String>,
    ) -> (r: Option<ProxyDeltaBatch>)
        ensures
            match r {
                Some(batch) => round_fits(
                    self.active_conns.map(),
                    connections@,
                    views(control_domains@),
                    views(direct_suffixes@),
                ) && batch.batch() == round_of(
                    self.active_conns.map(),
                    connections@,
                    views(control_domains@),
                    views(direct_suffixes@),
                ).batch,
                None => !round_fits(
                    self.active_conns.map(),
                    connections@,
                    views(control_domains@),
                    views(direct_suffixes@),
                ),
            },
    {
        match self.checked_round(connections, control_domains, direct_suffixes) {
            Some((batch, _)) => Some(batch),
            None => None,
        }
    }

    /// Whether every number that comes up in a round is an `i64`.
    pub fn deltas_fit(
        &self,
        connections: &Vec<ClashConnection>,
        control_domains: &Vec<String>,
        direct_suffixes: &Vec<String>,
    ) -> (r: bool)
        ensures
            r == round_fits(
                self.active_conns.map(),
                connections@,
                views(control_domains@),
                views(direct_suffixes@),
            ),
    {
        self.checked_round(connections, control_domains, direct_suffixes).is_some()
    }

    /// The bytes that the proxied connections have moved since the last round, in all, by host,
    /// and by host that should go direct. Connections to control domains are left out.
    pub fn calculate_proxy_deltas_with_control_domains(
        &mut self,
        connections: &Vec<ClashConnection>,
        control_domains: &Vec<String>,
        direct_suffixes: &Vec<String>,
    ) -> (r: ProxyDeltaBatch)
        requires
            round_fits(
                old(self).active_conns.map(),
                connections@,
                views(control_domains@),
                views(direct_suffixes@),
            ),
        ensures
            ({
                let end = round_of(
                    old(self).active_conns.map(),
                    connections@,
                    views(control_domains@),
                    views(direct_suffixes@),
                );
                r.batch() == end.batch && final(self).active_conns.map() == end.known
            }),
    {
        match self.checked_round(connections, control_domains, direct_suffixes) {
            Some((batch, next)) => {
                self.active_conns = next;
                batch
            },
            None => ProxyDeltaBatch::default(),
        }
    }

    /// The bytes that the proxied connections have moved since the last round, with the control
    /// domains and the suffixes of the settings.
    pub fn calculate_proxy_deltas(
        &mut self,
        connections: &Vec<ClashConnection>,
        settings: &RoutingSettings,
    ) -> (r: ProxyDeltaBatch)
        requires
            round_fits(
                old(self).active_conns.map(),
                connections@,
                control_domains_by(*settings),
                suffixes_by(*settings),
            ),
        ensures
            ({
                let end = round_of(
                    old(self).active_conns.map(),
                    connections@,
                    control_domains_by(*settings),
                    suffixes_by(*settings),
                );
                r.batch() == end.batch && final(self).active_conns.map() == end.known
            }),
    {
        let control_domains = configured_control_domain_suffixes(settings);
        let direct_suffixes = configured_direct_suffixes(settings);
        self.calculate_proxy_deltas_with_control_domains(
            connections,
            &control_domains,
            &direct_suffixes,
        )
    }
}

impl ClientTrafficTracker {
    /// The bytes that the proxied connections have moved since the last round, if every number
    /// that comes up is an `i64`; else nothing changes.
    pub fn try_proxy_deltas(
        &mut self,
        connections: &Vec<ClashConnection>,
        settings: &RoutingSettings,
    ) -> (r: Option<ProxyDeltaBatch>)
        ensures
            ({
                let before = old(self).active_conns.map();
                let control = control_domains_by(*settings);
                let suffixes = suffixes_by(*settings);
                match r {
                    Some(batch) => {
                        let end = round_of(before, connections@, control, suffixes);
                        &&& round_fits(before, connections@, control, suffixes)
                        &&& batch.batch() == end.batch
                        &&& final(self).active_conns.map() == end.known
                    },
                    None => !round_fits(before, connections@, control, suffixes) && *final(self)
                        == *old(self),
                }
            }),
    {
        let control_domains = configured_control_domain_suffixes(settings);
        let direct_suffixes = configured_direct_suffixes(settings);
        if self.deltas_fit(connections, &control_domains, &direct_suffixes) {
            Some(self.calculate_proxy_deltas(connections, settings))
        } else {
            None
        }
    }
}

proof fn lemma_counts_id_push(
    conns: Seq<ClashConnection>,
    c: ClashConnection,
    control: Seq<Seq<char>>,
    id: Seq<char>,
)
    ensures
        counts_id(conns.push(c), control, id) <==> counts_id(conns, control, id) || (c.id@ == id
            && counted_host(c, control) is Some),
{
    let more = conns.push(c);
    if counts_id(conns, control, id) {
        let i = choose|i: int|
            0 <= i < conns.len() && (#[trigger] conns[i]).id@ == id && counted_host(
                conns[i],
                control,
            ) is Some;
        assert(more[i] == conns[i]);
    }
    if c.id@ == id && counted_host(c, control) is Some {
        assert(more[conns.len() as int] == c);
    }
    if counts_id(more, control, id) {
        let i = choose|i: int|
            0 <= i < more.len() && (#[trigger] more[i]).id@ == id && counted_host(
                more[i],
                control,
            ) is Some;
        if i < conns.len() {
            assert(conns[i] == more[i]);
        }
    }
}

// ---------------------------------------------------------------------------
// What holds of every round
// ---------------------------------------------------------------------------

/// The parts of a batch agree: no count is negative, the counts by host add up to the download and
/// the upload, and the abnormal hosts are those of the batch that should go direct, with the same
/// bytes.
pub open spec fn consistent(b: Batch, suffixes: Seq<Seq<char>>) -> bool {
    &&& b.download >= 0
    &&& b.upload >= 0
    &&& b.domains.dom().finite()
    &&& forall|h: Seq<char>| #[trigger] b.domains.contains_key(h) ==> b.domains[h] > 0
    &&& map_sum(b.domains) == b.download + b.upload
    &&& forall|h: Seq<char>| #[trigger]
        b.abnormal.contains_key(h) <==> b.domains.contains_key(h) && !verdict_on(
            h,
            suffixes,
        ).should_proxy
    &&& forall|h: Seq<char>| #[trigger]
        b.abnormal.contains_key(h) ==> b.abnormal[h] == (Classified {
            bytes: b.domains[h],
            verdict: verdict_on(h, suffixes),
        })
}

/// The batch of every round is consistent.
pub proof fn rounds_are_consistent(
    known: Map<Seq<char>, Seen>,
    conns: Seq<ClashConnection>,
    control: Seq<Seq<char>>,
    suffixes: Seq<Seq<char>>,
)
    ensures
        consistent(round_of(known, conns, control, suffixes).batch, suffixes),
{
    lemma_consistent(known, conns, control, suffixes);
}

proof fn lemma_consistent(
    known: Map<Seq<char>, Seen>,
    conns: Seq<ClashConnection>,
    control: Seq<Seq<char>>,
    suffixes: Seq<Seq<char>>,
)
    ensures
        consistent(
            after_connections(
                Round { known, batch: empty_batch() },
                conns,
                control,
                suffixes,
            ).batch,
            suffixes,
        ),
    decreases conns.len(),
{
    let start = Round { known, batch: empty_batch() };
    if conns.len() > 0 {
        lemma_consistent(known, conns.drop_last(), control, suffixes);
        let r = after_connections(start, conns.drop_last(), control, suffixes);
        let c = conns.last();
        if let Some(host) = counted_host(c, control) {
            let (download, upload) = moved(r.known, c);
            lemma_sum_insert(
                r.batch.domains,
                host,
                count_of(r.batch.domains, host) + download + upload,
            );
        }
    }
}

/// After a round exactly the connections that were counted in it are remembered.
pub proof fn remembers_counted_ids(
    known: Map<Seq<char>, Seen>,
    conns: Seq<ClashConnection>,
    control: Seq<Seq<char>>,
    suffixes: Seq<Seq<char>>,
)
    ensures
        round_of(known, conns, control, suffixes).known.dom() == counted_ids(conns, control),
{
    let start = Round { known, batch: empty_batch() };
    assert forall|id: Seq<char>| counts_id(conns, control, id) implies after_connections(
        start,
        conns,
        control,
        suffixes,
    ).known.contains_key(id) by {
        lemma_counted_is_known(start, conns, control, suffixes, id);
    }
    assert(round_of(known, conns, control, suffixes).known.dom() =~= counted_ids(conns, control));
}

proof fn lemma_counted_is_known(
    start: Round,
    conns: Seq<ClashConnection>,
    control: Seq<Seq<char>>,
    suffixes: Seq<Seq<char>>,
    id: Seq<char>,
)
    requires
        counts_id(conns, control, id),
    ensures
        after_connections(start, conns, control, suffixes).known.contains_key(id),
    decreases conns.len(),
{
    let rest = conns.drop_last();
    assert(conns =~= rest.push(conns.last()));
    lemma_counts_id_push(rest, conns.last(), control, id);
    if counts_id(rest, control, id) {
        lemma_counted_is_known(start, rest, control, suffixes, id);
    }
}

/// No two connections that are counted have the same id.
pub open spec fn distinct_ids(conns: Seq<ClashConnection>, control: Seq<Seq<char>>) -> bool {
    forall|i: int, j: int|
        0 <= i < j < conns.len() && counted_host(#[trigger] conns[i], control) is Some
            && counted_host(#[trigger] conns[j], control) is Some ==> conns[i].id@ != conns[j].id@
}

/// A connection that is seen for the first time adds nothing: a round of connections none of which
/// is remembered has an empty batch.
pub proof fn first_sight_counts_nothing(
    known: Map<Seq<char>, Seen>,
    conns: Seq<ClashConnection>,
    control: Seq<Seq<char>>,
    suffixes: Seq<Seq<char>>,
)
    requires
        distinct_ids(conns, control),
        forall|id: Seq<char>| counts_id(conns, control, id) ==> !#[trigger] known.contains_key(id),
    ensures
        round_of(known, conns, control, suffixes).batch == empty_batch(),
{
    lemma_first_sight(known, conns, control, suffixes);
}

proof fn lemma_first_sight(
    known: Map<Seq<char>, Seen>,
    conns: Seq<ClashConnection>,
    control: Seq<Seq<char>>,
    suffixes: Seq<Seq<char>>,
)
    requires
        distinct_ids(conns, control),
        forall|id: Seq<char>| counts_id(conns, control, id) ==> !#[trigger] known.contains_key(id),
    ensures
        ({
            let r = after_connections(
                Round { known, batch: empty_batch() },
                conns,
                control,
                suffixes,
            );
            &&& r.batch == empty_batch()
            &&& forall|id: Seq<char>| #[trigger]
                r.known.contains_key(id) <==> known.contains_key(id) || counts_id(
                    conns,
                    control,
                    id,
                )
        }),
    decreases conns.len(),
{
    let start = Round { known, batch: empty_batch() };
    if conns.len() > 0 {
        let rest = conns.drop_last();
        let c = conns.last();
        assert(conns =~= rest.push(c));
        assert forall|id: Seq<char>| counts_id(rest, control, id) implies !#[trigger] known.contains_key(
            id,
        ) by {
            lemma_counts_id_push(rest, c, control, id);
        }
        assert(distinct_ids(rest, control)) by {
            assert forall|i: int, j: int|
                0 <= i < j < rest.len() && counted_host(#[trigger] rest[i], control) is Some
                    && counted_host(#[trigger] rest[j], control) is Some implies rest[i].id@
                != rest[j].id@ by {
                assert(rest[i] == conns[i] && rest[j] == conns[j]);
            }
        }
        lemma_first_sight(known, rest, control, suffixes);
        let r = after_connections(start, rest, control, suffixes);
        let end = after_connections(start, conns, control, suffixes);
        if counted_host(c, control) is Some {
            lemma_counts_id_push(rest, c, control, c.id@);
            if r.known.contains_key(c.id@) {
                assert(counts_id(rest, control, c.id@));
                let i = choose|i: int|
                    0 <= i < rest.len() && (#[trigger] rest[i]).id@ == c.id@ && counted_host(
                        rest[i],
                        control,
                    ) is Some;
                assert(conns[i] == rest[i]);
                assert(conns[conns.len() - 1] == c);
            }
        }
        assert forall|id: Seq<char>| #[trigger]
            end.known.contains_key(id) <==> known.contains_key(id) || counts_id(
                conns,
                control,
                id,
            ) by {
            lemma_counts_id_push(rest, c, control, id);
            assert(r.known.contains_key(id) <==> known.contains_key(id) || counts_id(
                rest,
                control,
                id,
            ));
        }
    } else {
        assert forall|id: Seq<char>| #[trigger]
            start.known.contains_key(id) <==> known.contains_key(id) || counts_id(
                conns,
                control,
                id,
            ) by {}
    }
}

/// Every connection that is counted is remembered as it is.
pub open spec fn knows_all(
    known: Map<Seq<char>, Seen>,
    conns: Seq<ClashConnection>,
    control: Seq<Seq<char>>,
) -> bool {
    forall|i: int|
        0 <= i < conns.len() && counted_host(#[trigger] conns[i], control) is Some
            ==> known.contains_key(conns[i].id@) && known[conns[i].id@] == (Seen {
            host: counted_host(conns[i], control)->0,
            download: conns[i].download as int,
            upload: conns[i].upload as int,
        })
}

/// Counters that have not moved count nothing: a second round of the same connections has an empty
/// batch and leaves what is remembered as it is.
pub proof fn standing_still_counts_nothing(
    known: Map<Seq<char>, Seen>,
    conns: Seq<ClashConnection>,
    control: Seq<Seq<char>>,
    suffixes: Seq<Seq<char>>,
)
    requires
        distinct_ids(conns, control),
    ensures
        ({
            let first = round_of(known, conns, control, suffixes);
            round_of(first.known, conns, control, suffixes) == (Round {
                known: first.known,
                batch: empty_batch(),
            })
        }),
{
    let first = round_of(known, conns, control, suffixes);
    let start = Round { known, batch: empty_batch() };
    lemma_knows_all(start, conns, control, suffixes);
    remembers_counted_ids(known, conns, control, suffixes);
    assert(knows_all(first.known, conns, control)) by {
        assert forall|i: int|
            0 <= i < conns.len() && counted_host(#[trigger] conns[i], control) is Some implies {
            let id = conns[i].id@;
            first.known.contains_key(id) && first.known[id] == after_connections(
                start,
                conns,
                control,
                suffixes,
            ).known[id]
        } by {
            assert(counts_id(conns, control, conns[i].id@));
            assert(counted_ids(conns, control).contains(conns[i].id@));
        }
    }
    let again = Round { known: first.known, batch: empty_batch() };
    assert(conns.take(conns.len() as int) =~= conns);
    lemma_still(again, conns, conns, control, suffixes);
    assert(first.known.restrict(counted_ids(conns, control)) =~= first.known);
}

proof fn lemma_knows_all(
    start: Round,
    conns: Seq<ClashConnection>,
    control: Seq<Seq<char>>,
    suffixes: Seq<Seq<char>>,
)
    requires
        distinct_ids(conns, control),
    ensures
        knows_all(after_connections(start, conns, control, suffixes).known, conns, control),
    decreases conns.len(),
{
    if conns.len() > 0 {
        let rest = conns.drop_last();
        let c = conns.last();
        assert(distinct_ids(rest, control)) by {
            assert forall|i: int, j: int|
                0 <= i < j < rest.len() && counted_host(#[trigger] rest[i], control) is Some
                    && counted_host(#[trigger] rest[j], control) is Some implies rest[i].id@
                != rest[j].id@ by {
                assert(rest[i] == conns[i] && rest[j] == conns[j]);
            }
        }
        lemma_knows_all(start, rest, control, suffixes);
        let end = after_connections(start, conns, control, suffixes);
        assert forall|i: int|
            0 <= i < conns.len() && counted_host(#[trigger] conns[i], control) is Some implies {
            let id = conns[i].id@;
            end.known.contains_key(id) && end.known[id] == (Seen {
                host: counted_host(conns[i], control)->0,
                download: conns[i].download as int,
                upload: conns[i].upload as int,
            })
        } by {
            if i < rest.len() {
                assert(rest[i] == conns[i]);
                assert(conns[conns.len() - 1] == c);
            }
        }
    }
}

proof fn lemma_still(
    r: Round,
    conns: Seq<ClashConnection>,
    all: Seq<ClashConnection>,
    control: Seq<Seq<char>>,
    suffixes: Seq<Seq<char>>,
)
    requires
        knows_all(r.known, all, control),
        conns.len() <= all.len(),
        conns == all.take(conns.len() as int),
    ensures
        after_connections(r, conns, control, suffixes) == r,
    decreases conns.len(),
{
    if conns.len() > 0 {
        let rest = conns.drop_last();
        assert(rest =~= all.take(rest.len() as int));
        lemma_still(r, rest, all, control, suffixes);
        let c = conns.last();
        assert(c == all[conns.len() - 1]);
        if counted_host(c, control) is Some {
            assert(r.known.insert(c.id@, r.known[c.id@]) =~= r.known);
        }
        assert(after_connections(r, conns, control, suffixes) =~= r);
    }
}

/// Connections that do not go through the proxy, and those to control domains, never count: where
/// all are such, nothing is counted and nothing is remembered.
pub proof fn other_connections_never_count(
    known: Map<Seq<char>, Seen>,
    conns: Seq<ClashConnection>,
    control: Seq<Seq<char>>,
    suffixes: Seq<Seq<char>>,
)
    requires
        forall|i: int| 0 <= i < conns.len() ==> counted_host(#[trigger] conns[i], control) is None,
    ensures
        round_of(known, conns, control, suffixes) == (Round {
            known: Map::empty(),
            batch: empty_batch(),
        }),
{
    let start = Round { known, batch: empty_batch() };
    lemma_uncounted(start, conns, control, suffixes);
    assert(known.restrict(counted_ids(conns, control)) =~= Map::<Seq<char>, Seen>::empty());
}

proof fn lemma_uncounted(
    start: Round,
    conns: Seq<ClashConnection>,
    control: Seq<Seq<char>>,
    suffixes: Seq<Seq<char>>,
)
    requires
        forall|i: int| 0 <= i < conns.len() ==> counted_host(#[trigger] conns[i], control) is None,
    ensures
        after_connections(start, conns, control, suffixes) == start,
    decreases conns.len(),
{
    if conns.len() > 0 {
        let rest = conns.drop_last();
        assert forall|i: int| 0 <= i < rest.len() implies counted_host(
            #[trigger] rest[i],
            control,
        ) is None by {
            assert(rest[i] == conns[i]);
        }
        lemma_uncounted(start, rest, control, suffixes);
        assert(conns[conns.len() - 1] == conns.last());
    }
}

// ---------------------------------------------------------------------------
// What one connection counts for
// ---------------------------------------------------------------------------
/// A connection with a host goes by its host, whatever its address; one without a host goes by its
/// address; one with neither goes by the name for an unknown address. It is counted where its first
/// outbound is the proxy and the name is neither empty nor one of the control plane, and never
/// under another name.
pub proof fn host_goes_before_address(c: ClashConnection, control: Seq<Seq<char>>)
    ensures
        counted_host(c, control) is Some ==> c.chains@.len() > 0 && c.chains@[0]@ == "proxy"@,
        c.metadata.host@.len() > 0 && counted_host(c, control) is Some ==> counted_host(c, control)
            == Some(c.metadata.host@),
        c.metadata.host@.len() > 0 && c.chains@.len() > 0 && c.chains@[0]@ == "proxy"@ ==> (
        counted_host(c, control) is None <==> is_control(c.metadata.host@, control)),
        c.metadata.host@.len() == 0 ==> match c.metadata.destination_ip {
            Some(ip) => {
                &&& counted_host(c, control) is Some ==> counted_host(c, control) == Some(ip@)
                &&& c.chains@.len() > 0 && c.chains@[0]@ == "proxy"@ ==> (counted_host(
                    c,
                    control,
                ) is None <==> ip@.len() == 0 || is_control(ip@, control))
            },
            None => {
                &&& counted_host(c, control) is Some ==> counted_host(c, control) == Some(
                    "未知IP"@,
                )
                &&& c.chains@.len() > 0 && c.chains@[0]@ == "proxy"@ ==> (counted_host(
                    c,
                    control,
                ) is None <==> is_control("未知IP"@, control))
            },
        },
{
    reveal_strlit("未知IP");
}

/// Two connections with the same host through the same first outbound are counted alike, though
/// their addresses, ids and bytes differ.
pub proof fn same_host_counts_alike(
    c: ClashConnection,
    other: ClashConnection,
    control: Seq<Seq<char>>,
)
    requires
        c.metadata.host@.len() > 0,
        other.metadata.host@ == c.metadata.host@,
        other.chains@ == c.chains@,
    ensures
        counted_host(other, control) == counted_host(c, control),
{
}

/// A round of no connections counts nothing and remembers nothing.
pub proof fn no_connections_count_nothing(
    known: Map<Seq<char>, Seen>,
    control: Seq<Seq<char>>,
    suffixes: Seq<Seq<char>>,
)
    ensures
        ({
            let end = round_of(known, Seq::empty(), control, suffixes);
            &&& end.known == Map::<Seq<char>, Seen>::empty()
            &&& end.batch.download == 0
            &&& end.batch.upload == 0
            &&& end.batch.domains == Map::<Seq<char>, int>::empty()
            &&& end.batch.abnormal == Map::<Seq<char>, Classified>::empty()
        }),
{
    other_connections_never_count(known, Seq::empty(), control, suffixes);
}

/// One more connection in a round. One that is not counted changes nothing. One that is counted is
/// remembered with its host and its bytes. Where it was last seen with fewer bytes, its host, the
/// download and the upload grow by what is new, each counter on its own; a counter that fell, and a
/// connection that was not seen before, add nothing. No other host changes.
pub proof fn one_more_connection(
    known: Map<Seq<char>, Seen>,
    conns: Seq<ClashConnection>,
    c: ClashConnection,
    control: Seq<Seq<char>>,
    suffixes: Seq<Seq<char>>,
)
    ensures
        ({
            let first = round_of(known, conns, control, suffixes);
            let end = round_of(known, conns.push(c), control, suffixes);
            let last = if first.known.contains_key(c.id@) {
                Some(first.known[c.id@])
            } else if known.contains_key(c.id@) {
                Some(known[c.id@])
            } else {
                None
            };
            match counted_host(c, control) {
                None => end == first,
                Some(host) => {
                    let more_down = end.batch.download - first.batch.download;
                    let more_up = end.batch.upload - first.batch.upload;
                    &&& end.known == first.known.insert(
                        c.id@,
                        (Seen { host, download: c.download as int, upload: c.upload as int }),
                    )
                    &&& last is None ==> more_down == 0 && more_up == 0
                    &&& last is Some ==> {
                        &&& c.download >= last->0.download ==> more_down == c.download
                            - last->0.download
                        &&& c.download <= last->0.download ==> more_down == 0
                        &&& c.upload >= last->0.upload ==> more_up == c.upload - last->0.upload
                        &&& c.upload <= last->0.upload ==> more_up == 0
                    }
                    &&& more_down == 0 && more_up == 0 ==> end.batch == first.batch
                    &&& more_down > 0 || more_up > 0 ==> end.batch.domains.contains_key(host)
                        && end.batch.domains[host] == more_down + more_up + (
                    if first.batch.domains.contains_key(host) {
                        first.batch.domains[host]
                    } else {
                        0
                    })
                    &&& forall|other: Seq<char>|
                        other != host ==> (#[trigger] end.batch.domains.contains_key(other)
                            <==> first.batch.domains.contains_key(other))
                            && end.batch.domains[other] == first.batch.domains[other] && (
                        end.batch.abnormal.contains_key(other)
                            <==> first.batch.abnormal.contains_key(other))
                            && end.batch.abnormal[other] == first.batch.abnormal[other]
                },
            }
        }),
{
    let start = Round { known, batch: empty_batch() };
    let mid = after_connections(start, conns, control, suffixes);
    let all = conns.push(c);
    assert(all.drop_last() =~= conns);
    assert(after_connections(start, all, control, suffixes) == after_connection(
        mid,
        c,
        control,
        suffixes,
    ));
    let first = round_of(known, conns, control, suffixes);
    let end = round_of(known, all, control, suffixes);
    assert forall|id: Seq<char>| true implies #[trigger] counts_id(all, control, id) == (counts_id(
        conns,
        control,
        id,
    ) || (c.id@ == id && counted_host(c, control) is Some)) by {
        lemma_counts_id_push(conns, c, control, id);
    }
    remembers_counted_ids(known, conns, control, suffixes);
    if !counts_id(conns, control, c.id@) {
        lemma_uncounted_is_untouched(start, conns, control, suffixes, c.id@);
        assert(!counted_ids(conns, control).contains(c.id@));
    } else {
        assert(counted_ids(conns, control).contains(c.id@));
        lemma_counted_is_known(start, conns, control, suffixes, c.id@);
    }
    match counted_host(c, control) {
        None => {
            assert(counted_ids(all, control) =~= counted_ids(conns, control));
            assert(end =~= first);
        },
        Some(host) => {
            assert forall|id: Seq<char>| counts_id(conns, control, id) implies #[trigger] mid.known.contains_key(
                id,
            ) by {
                lemma_counted_is_known(start, conns, control, suffixes, id);
            }
            assert(end.known =~= first.known.insert(
                c.id@,
                (Seen { host, download: c.download as int, upload: c.upload as int }),
            ));
        },
    }
}

/// What is remembered of a connection stays while none with its id is counted.
proof fn lemma_uncounted_is_untouched(
    start: Round,
    conns: Seq<ClashConnection>,
    control: Seq<Seq<char>>,
    suffixes: Seq<Seq<char>>,
    id: Seq<char>,
)
    requires
        !counts_id(conns, control, id),
    ensures
        ({
            let end = after_connections(start, conns, control, suffixes);
            &&& end.known.contains_key(id) == start.known.contains_key(id)
            &&& end.known[id] == start.known[id]
        }),
    decreases conns.len(),
{
    if conns.len() > 0 {
        let rest = conns.drop_last();
        let c = conns.last();
        assert(rest.push(c) =~= conns);
        lemma_counts_id_push(rest, c, control, id);
        lemma_uncounted_is_untouched(start, rest, control, suffixes, id);
    }
}

/// A round can be counted exactly where every connection can be: where a counted connection was last
/// seen with other bytes, the differences are `i64`, and so are all sums that it changes.
pub proof fn rounds_fit_where_their_sums_do(
    known: Map<Seq<char>, Seen>,
    conns: Seq<ClashConnection>,
    c: ClashConnection,
    control: Seq<Seq<char>>,
    suffixes: Seq<Seq<char>>,
)
    ensures
        round_fits(known, Seq::empty(), control, suffixes),
        ({
            let first = round_of(known, conns, control, suffixes);
            let end = round_of(known, conns.push(c), control, suffixes);
            let last = if first.known.contains_key(c.id@) {
                Some(first.known[c.id@])
            } else if known.contains_key(c.id@) {
                Some(known[c.id@])
            } else {
                None
            };
            let more_down = end.batch.download - first.batch.download;
            let more_up = end.batch.upload - first.batch.upload;
            round_fits(known, conns.push(c), control, suffixes) <==> round_fits(
                known,
                conns,
                control,
                suffixes,
            ) && match counted_host(c, control) {
                None => true,
                Some(host) => last is Some ==> {
                    &&& fits(c.download - last->0.download)
                    &&& fits(c.upload - last->0.upload)
                    &&& fits(more_down + more_up)
                    &&& more_down + more_up > 0 ==> {
                        &&& fits(end.batch.download)
                        &&& fits(end.batch.upload)
                        &&& fits(end.batch.domains[host])
                        &&& end.batch.abnormal.contains_key(host) ==> fits(
                            end.batch.abnormal[host].bytes,
                        )
                    }
                },
            }
        }),
{
    let start = Round { known, batch: empty_batch() };
    let all = conns.push(c);
    let n = conns.len() as int;
    let mid = after_connections(start, conns, control, suffixes);
    assert(all.drop_last() =~= conns);
    assert(all.take(n) =~= conns);
    assert forall|i: int| 0 <= i < n implies #[trigger] all.take(i) == conns.take(i) by {
        assert(all.take(i) =~= conns.take(i));
    }
    one_more_connection(known, conns, c, control, suffixes);
    rounds_are_consistent(known, conns, control, suffixes);
    rounds_are_consistent(known, all, control, suffixes);
    if !counts_id(conns, control, c.id@) {
        lemma_uncounted_is_untouched(start, conns, control, suffixes, c.id@);
        assert(!counted_ids(conns, control).contains(c.id@));
    } else {
        assert(counted_ids(conns, control).contains(c.id@));
        lemma_counted_is_known(start, conns, control, suffixes, c.id@);
    }
    remembers_counted_ids(known, conns, control, suffixes);
    assert(all[n] == c);
    if round_fits(known, all, control, suffixes) {
        assert forall|i: int| 0 <= i < n implies connection_fits(
            after_connections(start, #[trigger] conns.take(i), control, suffixes),
            conns[i],
            control,
            suffixes,
        ) by {
            assert(all.take(i) == conns.take(i));
            assert(all[i] == conns[i]);
        }
        assert(connection_fits(
            after_connections(start, all.take(n), control, suffixes),
            all[n],
            control,
            suffixes,
        ));
    }
    if round_fits(known, conns, control, suffixes) && connection_fits(mid, c, control, suffixes) {
        assert forall|i: int| 0 <= i < all.len() implies connection_fits(
            after_connections(start, #[trigger] all.take(i), control, suffixes),
            all[i],
            control,
            suffixes,
        ) by {
            if i < n {
                assert(all.take(i) == conns.take(i));
                assert(all[i] == conns[i]);
            }
        }
    }
}

/// What a batch says is what its fields hold, each under its own name; and so it is with what is
/// remembered of a connection.
pub proof fn batches_say_what_they_hold(b: ProxyDeltaBatch, seen: (String, i64, i64))
    ensures
        b.batch().download == b.download_delta,
        b.batch().upload == b.upload_delta,
        b.batch().domains == b.domain_deltas.map(),
        b.batch().abnormal == b.abnormal_domain_deltas.map(),
        seen.model().host == seen.0@,
        seen.model().download == seen.1,
        seen.model().upload == seen.2,
{
}

} // verus!
