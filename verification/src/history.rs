//! What the server keeps of the reports of all devices.

use crate::classify::{Classified, ClassifiedDomainDelta};
use crate::text::views;
use crate::text_map::{Model, TextMap};
use vstd::prelude::*;

verus! {

/// What is kept of one device.
pub struct DeviceHistory {
    pub total_download: i64,
    pub total_upload: i64,
    /// The time of the last report, in seconds since 1970.
    pub last_seen: i64,
    pub current_node: String,
    pub processed_report_ids: Vec<String>,
    pub total_abnormal_proxy: i64,
    pub domain_traffic: TextMap<i64>,
    pub abnormal_domain_traffic: TextMap<ClassifiedDomainDelta>,
}

/// What the history of a device says.
#[verifier::ext_equal]
pub struct Device {
    pub download: int,
    pub upload: int,
    pub last_seen: int,
    pub node: Seq<char>,
    pub ids: Seq<Seq<char>>,
    pub abnormal_total: int,
    pub domains: Map<Seq<char>, int>,
    pub abnormal: Map<Seq<char>, Classified>,
}

pub open spec fn empty_device() -> Device {
    Device {
        download: 0,
        upload: 0,
        last_seen: 0,
        node: Seq::empty(),
        ids: Seq::empty(),
        abnormal_total: 0,
        domains: Map::empty(),
        abnormal: Map::empty(),
    }
}

impl Model for DeviceHistory {
    type M = Device;

    open spec fn model(&self) -> Device {
        Device {
            download: self.total_download as int,
            upload: self.total_upload as int,
            last_seen: self.last_seen as int,
            node: self.current_node@,
            ids: views(self.processed_report_ids@),
            abnormal_total: self.total_abnormal_proxy as int,
            domains: self.domain_traffic.map(),
            abnormal: self.abnormal_domain_traffic.map(),
        }
    }

    fn duplicate(&self) -> (r: DeviceHistory) {
        DeviceHistory {
            total_download: self.total_download,
            total_upload: self.total_upload,
            last_seen: self.last_seen,
            current_node: self.current_node.clone(),
            processed_report_ids: copied_texts(&self.processed_report_ids),
            total_abnormal_proxy: self.total_abnormal_proxy,
            domain_traffic: self.domain_traffic.duplicate(),
            abnormal_domain_traffic: self.abnormal_domain_traffic.duplicate(),
        }
    }
}

impl Default for DeviceHistory {
    fn default() -> (r: Self)
        ensures
            r.model() == empty_device(),
    {
        let r = DeviceHistory {
            total_download: 0,
            total_upload: 0,
            last_seen: 0,
            current_node: String::new(),
            processed_report_ids: Vec::new(),
            total_abnormal_proxy: 0,
            domain_traffic: TextMap::new(),
            abnormal_domain_traffic: TextMap::new(),
        };
        assert(r.model() =~= empty_device());
        r
    }
}

/// A list of the same texts.
pub fn copied_texts(list: &Vec<String>) -> (r: Vec<String>)
    ensures
        views(r@) == views(list@),
{
    let mut out: Vec<String> = Vec::new();
    for i in 0..list.len()
        invariant
            out@ == list@.take(i as int),
    {
        out.push(list[i].clone());
        assert(out@ =~= list@.take(i as int + 1));
    }
    assert(list@.take(list@.len() as int) =~= list@);
    out
}

/// What is kept of one node.
pub struct NodeHistory {
    pub server: String,
    pub server_port: u16,
    pub total_download: i64,
    pub total_upload: i64,
    pub domain_traffic: TextMap<i64>,
    pub abnormal_domain_traffic: TextMap<ClassifiedDomainDelta>,
}

/// What the history of a node says.
#[verifier::ext_equal]
pub struct NodeTotals {
    pub server: Seq<char>,
    pub port: int,
    pub download: int,
    pub upload: int,
    pub domains: Map<Seq<char>, int>,
    pub abnormal: Map<Seq<char>, Classified>,
}

pub open spec fn empty_node() -> NodeTotals {
    NodeTotals {
        server: Seq::empty(),
        port: 0,
        download: 0,
        upload: 0,
        domains: Map::empty(),
        abnormal: Map::empty(),
    }
}

impl Model for NodeHistory {
    type M = NodeTotals;

    open spec fn model(&self) -> NodeTotals {
        NodeTotals {
            server: self.server@,
            port: self.server_port as int,
            download: self.total_download as int,
            upload: self.total_upload as int,
            domains: self.domain_traffic.map(),
            abnormal: self.abnormal_domain_traffic.map(),
        }
    }

    fn duplicate(&self) -> (r: NodeHistory) {
        NodeHistory {
            server: self.server.clone(),
            server_port: self.server_port,
            total_download: self.total_download,
            total_upload: self.total_upload,
            domain_traffic: self.domain_traffic.duplicate(),
            abnormal_domain_traffic: self.abnormal_domain_traffic.duplicate(),
        }
    }
}

impl Default for NodeHistory {
    fn default() -> (r: Self)
        ensures
            r.model() == empty_node(),
    {
        let r = NodeHistory {
            server: String::new(),
            server_port: 0,
            total_download: 0,
            total_upload: 0,
            domain_traffic: TextMap::new(),
            abnormal_domain_traffic: TextMap::new(),
        };
        assert(r.model() =~= empty_node());
        r
    }
}

/// What the server keeps.
pub struct NasTrafficHistory {
    pub devices: TextMap<DeviceHistory>,
    pub nodes: TextMap<NodeHistory>,
    /// The bytes of this day by domain.
    pub daily_api_traffic: TextMap<i64>,
    pub daily_api_date: String,
    /// The bytes of this week by domain.
    pub weekly_api_traffic: TextMap<i64>,
    pub weekly_api_week: i32,
    pub daily_abnormal_traffic: TextMap<ClassifiedDomainDelta>,
    pub weekly_abnormal_traffic: TextMap<ClassifiedDomainDelta>,
}

/// What the history says.
#[verifier::ext_equal]
pub struct History {
    pub devices: Map<Seq<char>, Device>,
    pub nodes: Map<Seq<char>, NodeTotals>,
    pub daily: Map<Seq<char>, int>,
    pub day: Seq<char>,
    pub weekly: Map<Seq<char>, int>,
    pub week: int,
    pub daily_abnormal: Map<Seq<char>, Classified>,
    pub weekly_abnormal: Map<Seq<char>, Classified>,
}

pub open spec fn empty_history() -> History {
    History {
        devices: Map::empty(),
        nodes: Map::empty(),
        daily: Map::empty(),
        day: Seq::empty(),
        weekly: Map::empty(),
        week: 0,
        daily_abnormal: Map::empty(),
        weekly_abnormal: Map::empty(),
    }
}

impl NasTrafficHistory {
    pub open spec fn history(self) -> History {
        History {
            devices: self.devices.map(),
            nodes: self.nodes.map(),
            daily: self.daily_api_traffic.map(),
            day: self.daily_api_date@,
            weekly: self.weekly_api_traffic.map(),
            week: self.weekly_api_week as int,
            daily_abnormal: self.daily_abnormal_traffic.map(),
            weekly_abnormal: self.weekly_abnormal_traffic.map(),
        }
    }
}

impl Default for NasTrafficHistory {
    fn default() -> (r: Self)
        ensures
            r.history() == empty_history(),
    {
        let r = NasTrafficHistory {
            devices: TextMap::new(),
            nodes: TextMap::new(),
            daily_api_traffic: TextMap::new(),
            daily_api_date: String::new(),
            weekly_api_traffic: TextMap::new(),
            weekly_api_week: 0,
            daily_abnormal_traffic: TextMap::new(),
            weekly_abnormal_traffic: TextMap::new(),
        };
        assert(r.history() =~= empty_history());
        r
    }
}

/// What a record says is what its fields hold, each under its own name.
pub proof fn records_say_what_they_hold(dev: DeviceHistory, node: NodeHistory, h: NasTrafficHistory)
    ensures
        dev.model().download == dev.total_download,
        dev.model().upload == dev.total_upload,
        dev.model().last_seen == dev.last_seen,
        dev.model().node == dev.current_node@,
        dev.model().ids == views(dev.processed_report_ids@),
        dev.model().abnormal_total == dev.total_abnormal_proxy,
        dev.model().domains == dev.domain_traffic.map(),
        dev.model().abnormal == dev.abnormal_domain_traffic.map(),
        node.model().server == node.server@,
        node.model().port == node.server_port,
        node.model().download == node.total_download,
        node.model().upload == node.total_upload,
        node.model().domains == node.domain_traffic.map(),
        node.model().abnormal == node.abnormal_domain_traffic.map(),
        h.history().devices == h.devices.map(),
        h.history().nodes == h.nodes.map(),
        h.history().daily == h.daily_api_traffic.map(),
        h.history().day == h.daily_api_date@,
        h.history().weekly == h.weekly_api_traffic.map(),
        h.history().week == h.weekly_api_week,
        h.history().daily_abnormal == h.daily_abnormal_traffic.map(),
        h.history().weekly_abnormal == h.weekly_abnormal_traffic.map(),
{
}

} // verus!
