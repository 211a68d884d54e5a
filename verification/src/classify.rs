//! Which targets should go through the proxy and which should not.

use crate::foreign::{json_list_in, opt_views, parse_json_list};
use crate::hosts::{
    domains_end_at_a_point, in_domain, lies_in, lowercase, lowercased, normalize_traffic_target,
    traffic_target, RoutingSettings,
};
use crate::ip::{is_ip, is_ip_address};
use crate::text::{
    ascii_lower, begins_with_text, char_is_control, char_views, chars_of, drop_leading, first_piece,
    is_ascii, is_control, is_whitespace, lemma_split_first, lemma_split_whole, list_has, opt_view,
    same_text, split, split_at_set, starts_with, text_of, trim, trimmed, views, without_leading,
    CharSet,
};
use crate::text_map::{
    fits, lemma_map_of, lemma_map_of_take, map_of, stays_under, sum_fits, Model, TextMap,
};
use vstd::prelude::*;
use vstd::string::StringExecFns;

verus! {

// ---------------------------------------------------------------------------
// Suffixes that go direct
// ---------------------------------------------------------------------------

/// The suffixes that go direct whatever the settings say.
pub open spec fn default_direct_suffixes() -> Seq<Seq<char>> {
    seq![
        "cn"@,
        "baidu.com"@,
        "bdstatic.com"@,
        "bilibili.com"@,
        "bilivideo.com"@,
        "qq.com"@,
        "tencent.com"@,
        "gtimg.com"@,
        "taobao.com"@,
        "tmall.com"@,
        "alicdn.com"@,
        "alipay.com"@,
        "aliyun.com"@,
        "bytedance.com"@,
        "douyin.com"@,
        "feishu.cn"@,
        "larksuite.com"@,
        "weibo.com"@,
        "zhihu.com"@,
        "mi.com"@,
        "xiaomi.com"@,
        "tuna.tsinghua.edu.cn"@,
        "ustc.edu.cn"@,
    ]
}

/// A suffix in its normal form: no surrounding space, no leading points, lower case.
pub open spec fn suffix_form(raw: Seq<char>) -> Seq<char> {
    lowercase(drop_leading(trim(raw), CharSet::One('.')))
}

pub open spec fn has_control(s: Seq<char>) -> bool {
    exists|i: int| 0 <= i < s.len() && is_control(#[trigger] s[i])
}

/// The list after one more suffix, which is left out where it is empty, holds a control character
/// or stands in the list.
pub open spec fn add_suffix(list: Seq<Seq<char>>, raw: Seq<char>) -> Seq<Seq<char>> {
    let suffix = suffix_form(raw);
    if suffix.len() == 0 || has_control(suffix) || list.contains(suffix) {
        list
    } else {
        list.push(suffix)
    }
}

/// The list after several more suffixes, in their order.
pub open spec fn add_suffixes(list: Seq<Seq<char>>, raws: Seq<Seq<char>>) -> Seq<Seq<char>>
    decreases raws.len(),
{
    if raws.len() == 0 {
        list
    } else {
        add_suffix(add_suffixes(list, raws.drop_last()), raws.last())
    }
}

/// An entry of a plain list of suffixes, without the comment after `#`.
pub open spec fn suffix_entry(raw: Seq<char>) -> Seq<char> {
    trim(split(raw, CharSet::One('#')).first())
}

/// The suffixes in a text that is either a JSON list of strings, given as `json`, or a plain list
/// whose entries stand between commas, tabs and ends of lines.
pub open spec fn suffixes_in(json: Option<Seq<Seq<char>>>, content: Seq<char>) -> Seq<Seq<char>> {
    match json {
        Some(values) => add_suffixes(Seq::empty(), values),
        None => add_suffixes(
            Seq::empty(),
            split(content, CharSet::ListSeparators).map_values(|e: Seq<char>| suffix_entry(e)),
        ),
    }
}

fn normal_suffix(raw: &[char]) -> (r: Vec<char>)
    ensures
        r@ == suffix_form(raw@),
{
    lowercased(without_leading(trimmed(raw), CharSet::One('.')))
}

fn holds_control(s: &[char]) -> (r: bool)
    ensures
        r == has_control(s@),
{
    for i in 0..s.len()
        invariant
            forall|j: int| 0 <= j < i ==> !is_control(#[trigger] s@[j]),
    {
        if char_is_control(s[i]) {
            assert(is_control(s@[i as int]));
            return true;
        }
    }
    false
}

fn push_suffix(suffixes: &mut Vec<String>, suffix: &[char])
    ensures
        views(final(suffixes)@) == add_suffix(views(old(suffixes)@), suffix@),
{
    let form = normal_suffix(suffix);
    if form.len() == 0 || holds_control(form.as_slice()) {
        return;
    }
    let text = text_of(form.as_slice());
    if !list_has(suffixes, text.as_str()) {
        suffixes.push(text);
        assert(views(suffixes@) =~= views(old(suffixes)@).push(text@));
    }
}

/// Adds a suffix in its normal form to the list, unless it is empty, holds a control character or
/// is there.
pub fn push_normalized_suffix(suffixes: &mut Vec<String>, suffix: &str)
    ensures
        views(final(suffixes)@) == add_suffix(views(old(suffixes)@), suffix@),
{
    let v = chars_of(suffix);
    push_suffix(suffixes, v.as_slice());
}

fn push_all(suffixes: &mut Vec<String>, more: &Vec<String>)
    ensures
        views(final(suffixes)@) == add_suffixes(views(old(suffixes)@), views(more@)),
{
    let ghost first = views(suffixes@);
    let ghost all = views(more@);
    assert(all.take(0) =~= Seq::<Seq<char>>::empty());
    for i in 0..more.len()
        invariant
            all == views(more@),
            views(suffixes@) == add_suffixes(first, all.take(i as int)),
    {
        push_normalized_suffix(suffixes, more[i].as_str());
        proof {
            let next = all.take(i as int + 1);
            assert(next.drop_last() =~= all.take(i as int));
            assert(next.last() == more@[i as int]@);
        }
    }
    assert(all.take(all.len() as int) =~= all);
}

/// The suffixes in a text: those of the JSON list that was read from it, if it is one, else those
/// of the plain list.
pub fn suffixes_from(json: &Option<Vec<String>>, content: &str) -> (r: Vec<String>)
    ensures
        views(r@) == suffixes_in(opt_views(*json), content@),
{
    let mut out: Vec<String> = Vec::new();
    assert(views(out@) =~= Seq::<Seq<char>>::empty());
    match json {
        Some(values) => {
            push_all(&mut out, values);
        },
        None => {
            let v = chars_of(content);
            let entries = split_at_set(v.as_slice(), CharSet::ListSeparators);
            let ghost pieces = split(content@, CharSet::ListSeparators);
            let ghost all = pieces.map_values(|e: Seq<char>| suffix_entry(e));
            assert(all.take(0) =~= Seq::<Seq<char>>::empty());
            for i in 0..entries.len()
                invariant
                    pieces == char_views(entries@),
                    all == pieces.map_values(|e: Seq<char>| suffix_entry(e)),
                    views(out@) == add_suffixes(Seq::empty(), all.take(i as int)),
            {
                let plain = first_piece(entries[i].as_slice(), CharSet::One('#'));
                assert(pieces[i as int] == entries@[i as int]@);
                push_suffix(&mut out, trimmed(plain.as_slice()));
                proof {
                    let next = all.take(i as int + 1);
                    assert(next.drop_last() =~= all.take(i as int));
                    assert(next.last() == suffix_entry(pieces[i as int]));
                }
            }
            assert(all.take(all.len() as int) =~= all);
        },
    }
    out
}

/// Reads a list of suffixes: a JSON list of strings or a plain list.
pub fn parse_direct_suffixes(content: &str) -> (r: Vec<String>)
    ensures
        views(r@) == suffixes_in(json_list_in(content@), content@),
{
    let json = parse_json_list(content);
    suffixes_from(&json, content)
}

/// The suffixes in an optional text.
pub open spec fn suffixes_in_setting(setting: Option<Seq<char>>) -> Seq<Seq<char>> {
    match setting {
        Some(content) => suffixes_in(json_list_in(content), content),
        None => Seq::empty(),
    }
}

/// All suffixes that go direct: the default ones, then those of the settings.
pub open spec fn direct_suffixes_of(
    setting: Option<Seq<char>>,
    file: Option<Seq<char>>,
) -> Seq<Seq<char>> {
    add_suffixes(
        add_suffixes(
            add_suffixes(Seq::empty(), default_direct_suffixes()),
            suffixes_in_setting(setting),
        ),
        suffixes_in_setting(file),
    )
}

fn default_suffixes() -> (r: Vec<&'static str>)
    ensures
        r@.map_values(|s: &str| s@) == default_direct_suffixes(),
{
    let r = vec![
        "cn",
        "baidu.com",
        "bdstatic.com",
        "bilibili.com",
        "bilivideo.com",
        "qq.com",
        "tencent.com",
        "gtimg.com",
        "taobao.com",
        "tmall.com",
        "alicdn.com",
        "alipay.com",
        "aliyun.com",
        "bytedance.com",
        "douyin.com",
        "feishu.cn",
        "larksuite.com",
        "weibo.com",
        "zhihu.com",
        "mi.com",
        "xiaomi.com",
        "tuna.tsinghua.edu.cn",
        "ustc.edu.cn",
    ];
    assert(r@.map_values(|s: &str| s@) =~= default_direct_suffixes());
    r
}

/// All suffixes that go direct: the default ones, then those of the settings.
pub fn configured_direct_suffixes(settings: &RoutingSettings) -> (r: Vec<String>)
    ensures
        views(r@) == direct_suffixes_of(
            opt_view(settings.direct_suffixes),
            opt_view(settings.direct_suffixes_file),
        ),
{
    let mut out: Vec<String> = Vec::new();
    assert(views(out@) =~= Seq::<Seq<char>>::empty());
    let defaults = default_suffixes();
    let ghost all = default_direct_suffixes();
    assert(all.take(0) =~= Seq::<Seq<char>>::empty());
    for i in 0..defaults.len()
        invariant
            all == defaults@.map_values(|s: &str| s@),
            views(out@) == add_suffixes(Seq::empty(), all.take(i as int)),
    {
        push_normalized_suffix(&mut out, defaults[i]);
        proof {
            let next = all.take(i as int + 1);
            assert(next.drop_last() =~= all.take(i as int));
            assert(next.last() == defaults@[i as int]@);
        }
    }
    assert(all.take(all.len() as int) =~= all);
    if let Some(content) = &settings.direct_suffixes {
        let more = parse_direct_suffixes(content.as_str());
        push_all(&mut out, &more);
    }
    if let Some(content) = &settings.direct_suffixes_file {
        let more = parse_direct_suffixes(content.as_str());
        push_all(&mut out, &more);
    }
    out
}

/// A list of suffixes is clean: none is empty, none holds a control character, none stands twice.
pub open spec fn clean_suffixes(list: Seq<Seq<char>>) -> bool {
    &&& list.no_duplicates()
    &&& forall|i: int|
        0 <= i < list.len() ==> (#[trigger] list[i]).len() > 0 && !has_control(list[i])
}

/// Adding suffixes to a clean list gives a clean list that begins with it.
pub proof fn add_suffixes_keeps_clean(list: Seq<Seq<char>>, raws: Seq<Seq<char>>)
    requires
        clean_suffixes(list),
    ensures
        clean_suffixes(add_suffixes(list, raws)),
        list.len() <= add_suffixes(list, raws).len(),
        add_suffixes(list, raws).take(list.len() as int) == list,
    decreases raws.len(),
{
    if raws.len() > 0 {
        add_suffixes_keeps_clean(list, raws.drop_last());
        let before = add_suffixes(list, raws.drop_last());
        let after = add_suffixes(list, raws);
        if after != before {
            assert(after.take(list.len() as int) =~= before.take(list.len() as int));
            assert(after == before.push(suffix_form(raws.last())));
        }
    } else {
        assert(list.take(list.len() as int) =~= list);
    }
}

/// The configured suffixes are clean.
pub proof fn configured_suffixes_are_clean(setting: Option<Seq<char>>, file: Option<Seq<char>>)
    ensures
        clean_suffixes(direct_suffixes_of(setting, file)),
{
    let empty = Seq::<Seq<char>>::empty();
    let a = add_suffixes(empty, default_direct_suffixes());
    add_suffixes_keeps_clean(empty, default_direct_suffixes());
    let b = add_suffixes(a, suffixes_in_setting(setting));
    add_suffixes_keeps_clean(a, suffixes_in_setting(setting));
    add_suffixes_keeps_clean(b, suffixes_in_setting(file));
}

// ---------------------------------------------------------------------------
// Classification
// ---------------------------------------------------------------------------

/// Whether a target should go through the proxy, and why.
#[derive(Debug)]
pub struct TrafficClassification {
    pub should_proxy: bool,
    pub category: String,
    pub reason: String,
}

/// What a classification says.
#[verifier::ext_equal]
pub struct Verdict {
    pub should_proxy: bool,
    pub category: Seq<char>,
    pub reason: Seq<char>,
}

impl TrafficClassification {
    pub open spec fn verdict(self) -> Verdict {
        Verdict {
            should_proxy: self.should_proxy,
            category: self.category@,
            reason: self.reason@,
        }
    }
}

/// The domain ends in the suffix at the border of a label.
pub open spec fn has_suffix(domain: Seq<char>, suffix: Seq<char>) -> bool {
    in_domain(domain, suffix_form(suffix))
}

/// Whether the domain is the suffix or ends in it after a point.
pub fn domain_matches_suffix(domain: &str, suffix: &str) -> (r: bool)
    ensures
        r == has_suffix(domain@, suffix@),
{
    let d = chars_of(domain);
    let s = chars_of(suffix);
    let form = normal_suffix(s.as_slice());
    lies_in(d.as_slice(), form.as_slice())
}

/// The prefixes that mark an address as private or local.
pub open spec fn private_prefixes() -> Seq<Seq<char>> {
    seq![
        "10."@,
        "127."@,
        "192.168."@,
        "172.16."@,
        "172.17."@,
        "172.18."@,
        "172.19."@,
        "172.20."@,
        "172.21."@,
        "172.22."@,
        "172.23."@,
        "172.24."@,
        "172.25."@,
        "172.26."@,
        "172.27."@,
        "172.28."@,
        "172.29."@,
        "172.30."@,
        "172.31."@,
        "fc"@,
        "fd"@,
    ]
}

/// The address is one of a private network or of this machine.
pub open spec fn is_private(address: Seq<char>) -> bool {
    address == "::1"@ || exists|i: int|
        0 <= i < private_prefixes().len() && starts_with(address, #[trigger] private_prefixes()[i])
}

fn private_or_local(address: &[char]) -> (r: bool)
    ensures
        r == is_private(address@),
{
    let prefixes = vec![
        "10.",
        "127.",
        "192.168.",
        "172.16.",
        "172.17.",
        "172.18.",
        "172.19.",
        "172.20.",
        "172.21.",
        "172.22.",
        "172.23.",
        "172.24.",
        "172.25.",
        "172.26.",
        "172.27.",
        "172.28.",
        "172.29.",
        "172.30.",
        "172.31.",
        "fc",
        "fd",
    ];
    let ghost all = private_prefixes();
    assert(prefixes@.map_values(|s: &str| s@) =~= all);
    let loopback = chars_of("::1");
    if crate::text::same_chars(address, loopback.as_slice()) {
        return true;
    }
    for i in 0..prefixes.len()
        invariant
            all == private_prefixes(),
            all == prefixes@.map_values(|s: &str| s@),
            forall|j: int| 0 <= j < i ==> !starts_with(address@, #[trigger] all[j]),
    {
        assert(all[i as int] == prefixes@[i as int]@);
        if begins_with_text(address, prefixes[i]) {
            assert(starts_with(address@, private_prefixes()[i as int]));
            return true;
        }
    }
    false
}

/// The first suffix of the list that the domain ends in.
pub open spec fn first_suffix(domain: Seq<char>, suffixes: Seq<Seq<char>>) -> Option<Seq<char>>
    decreases suffixes.len(),
{
    if suffixes.len() == 0 {
        None
    } else if has_suffix(domain, suffixes[0]) {
        Some(suffixes[0])
    } else {
        first_suffix(domain, suffixes.skip(1))
    }
}

/// What is said of the host `domain`.
pub open spec fn host_verdict(domain: Seq<char>, suffixes: Seq<Seq<char>>) -> Verdict {
    if domain.len() == 0 || domain == "未知ip"@ {
        Verdict {
            should_proxy: true,
            category: "unknown"@,
            reason: "目标为空或仅能识别为未知 IP，保守归入代理流量"@,
        }
    } else if is_ip(domain) {
        if is_private(domain) {
            Verdict {
                should_proxy: false,
                category: "private-network"@,
                reason: "局域网或本机地址不应消耗代理服务器流量"@,
            }
        } else {
            Verdict {
                should_proxy: true,
                category: "public-ip"@,
                reason: "公网 IP 无法仅凭地址判断，应结合规则继续观察"@,
            }
        }
    } else {
        match first_suffix(domain, suffixes) {
            Some(suffix) => Verdict {
                should_proxy: false,
                category: "should-direct"@,
                reason: "命中国内/本地服务后缀规则: "@ + suffix,
            },
            None => Verdict {
                should_proxy: true,
                category: "expected-proxy"@,
                reason: "未命中直连候选规则，暂按正常代理流量统计"@,
            },
        }
    }
}

/// What is said of a target.
pub open spec fn verdict_on(target: Seq<char>, suffixes: Seq<Seq<char>>) -> Verdict {
    host_verdict(traffic_target(target), suffixes)
}

/// Classifies a host that is already in its normal form.
pub fn classify_host(domain: &str, direct_suffixes: &Vec<String>) -> (r: TrafficClassification)
    ensures
        r.verdict() == host_verdict(domain@, views(direct_suffixes@)),
{
    let d = chars_of(domain);
    if d.len() == 0 || same_text(domain, "未知ip") {
        return TrafficClassification {
            should_proxy: true,
            category: "unknown".to_owned(),
            reason: "目标为空或仅能识别为未知 IP，保守归入代理流量".to_owned(),
        };
    }
    if is_ip_address(d.as_slice()) {
        if private_or_local(d.as_slice()) {
            return TrafficClassification {
                should_proxy: false,
                category: "private-network".to_owned(),
                reason: "局域网或本机地址不应消耗代理服务器流量".to_owned(),
            };
        }
        return TrafficClassification {
            should_proxy: true,
            category: "public-ip".to_owned(),
            reason: "公网 IP 无法仅凭地址判断，应结合规则继续观察".to_owned(),
        };
    }
    let ghost all = views(direct_suffixes@);
    assert(all.skip(0) =~= all);
    for i in 0..direct_suffixes.len()
        invariant
            d@ == domain@,
            domain@.len() > 0,
            domain@ != "未知ip"@,
            !is_ip(domain@),
            all == views(direct_suffixes@),
            first_suffix(domain@, all) == first_suffix(domain@, all.skip(i as int)),
    {
        assert(all[i as int] == direct_suffixes@[i as int]@);
        assert(all.skip(i as int)[0] == all[i as int]);
        assert(all.skip(i as int).skip(1) =~= all.skip(i as int + 1));
        let suffix = direct_suffixes[i].as_str();
        if domain_matches_suffix(domain, suffix) {
            return TrafficClassification {
                should_proxy: false,
                category: "should-direct".to_owned(),
                reason: "命中国内/本地服务后缀规则: ".to_owned().concat(suffix),
            };
        }
    }
    TrafficClassification {
        should_proxy: true,
        category: "expected-proxy".to_owned(),
        reason: "未命中直连候选规则，暂按正常代理流量统计".to_owned(),
    }
}

/// Classifies a target by a list of suffixes that go direct.
pub fn classify_proxy_domain_with_suffixes(
    target: &str,
    direct_suffixes: &Vec<String>,
) -> (r: TrafficClassification)
    ensures
        r.verdict() == verdict_on(target@, views(direct_suffixes@)),
{
    let domain = normalize_traffic_target(target);
    classify_host(domain.as_str(), direct_suffixes)
}

/// The suffixes that go direct by the settings.
pub open spec fn suffixes_by(settings: RoutingSettings) -> Seq<Seq<char>> {
    direct_suffixes_of(opt_view(settings.direct_suffixes), opt_view(settings.direct_suffixes_file))
}

/// Classifies a target by the default suffixes and those of the settings.
pub fn classify_proxy_domain(target: &str, settings: &RoutingSettings) -> (r:
    TrafficClassification)
    ensures
        r.verdict() == verdict_on(target@, suffixes_by(*settings)),
{
    let suffixes = configured_direct_suffixes(settings);
    classify_proxy_domain_with_suffixes(target, &suffixes)
}

/// A target goes direct exactly where its host is a private address, or is no address and ends in
/// one of the suffixes; a host that is not known goes through the proxy.
pub proof fn direct_exactly_when(target: Seq<char>, suffixes: Seq<Seq<char>>)
    ensures
        !verdict_on(target, suffixes).should_proxy <==> {
            let host = traffic_target(target);
            &&& host.len() > 0 && host != "未知ip"@
            &&& if is_ip(host) {
                is_private(host)
            } else {
                exists|i: int|
                    0 <= i < suffixes.len() && has_suffix(host, #[trigger] suffixes[i])
            }
        },
{
    lemma_first_suffix(traffic_target(target), suffixes);
}

proof fn lemma_first_suffix(domain: Seq<char>, suffixes: Seq<Seq<char>>)
    ensures
        first_suffix(domain, suffixes) is Some <==> exists|i: int|
            0 <= i < suffixes.len() && has_suffix(domain, #[trigger] suffixes[i]),
    decreases suffixes.len(),
{
    if suffixes.len() > 0 && !has_suffix(domain, suffixes[0]) {
        let rest = suffixes.skip(1);
        lemma_first_suffix(domain, rest);
        if exists|i: int| 0 <= i < suffixes.len() && has_suffix(domain, #[trigger] suffixes[i]) {
            let i = choose|i: int|
                0 <= i < suffixes.len() && has_suffix(domain, #[trigger] suffixes[i]);
            assert(has_suffix(domain, rest[i - 1]));
        }
        if exists|i: int| 0 <= i < rest.len() && has_suffix(domain, #[trigger] rest[i]) {
            let i = choose|i: int| 0 <= i < rest.len() && has_suffix(domain, #[trigger] rest[i]);
            assert(has_suffix(domain, suffixes[i + 1]));
        }
    }
}

// ---------------------------------------------------------------------------
// What is said of every host
// ---------------------------------------------------------------------------

/// What is said of a host. One that is not known goes through the proxy. An address goes direct where
/// it is private, and through the proxy where it is not. A name that ends in one of the suffixes goes
/// direct, and the first such suffix is given as the reason; a name that ends in none goes through
/// the proxy.
pub proof fn verdicts_give_their_reason(host: Seq<char>, suffixes: Seq<Seq<char>>, i: int)
    ensures
        ({
            let v = host_verdict(host, suffixes);
            let known = host.len() > 0 && host != "未知ip"@;
            &&& !known ==> v.should_proxy && v.category == "unknown"@ && v.reason
                == "目标为空或仅能识别为未知 IP，保守归入代理流量"@
            &&& known && is_ip(host) && is_private(host) ==> !v.should_proxy && v.category
                == "private-network"@ && v.reason
                == "局域网或本机地址不应消耗代理服务器流量"@
            &&& known && is_ip(host) && !is_private(host) ==> v.should_proxy && v.category
                == "public-ip"@ && v.reason
                == "公网 IP 无法仅凭地址判断，应结合规则继续观察"@
            &&& known && !is_ip(host) && 0 <= i < suffixes.len() && has_suffix(host, suffixes[i])
                && (forall|j: int| 0 <= j < i ==> !has_suffix(host, #[trigger] suffixes[j]))
                ==> !v.should_proxy && v.category == "should-direct"@ && v.reason
                == "命中国内/本地服务后缀规则: "@ + suffixes[i]
            &&& known && !is_ip(host) && (forall|j: int|
                0 <= j < suffixes.len() ==> !has_suffix(host, #[trigger] suffixes[j]))
                ==> v.should_proxy && v.category == "expected-proxy"@ && v.reason
                == "未命中直连候选规则，暂按正常代理流量统计"@
        }),
{
    lemma_first_suffix(host, suffixes);
    if 0 <= i < suffixes.len() && has_suffix(host, suffixes[i]) && (forall|j: int|
        0 <= j < i ==> !has_suffix(host, #[trigger] suffixes[j])) {
        lemma_first_suffix_is(host, suffixes, i);
    }
}

proof fn lemma_first_suffix_is(domain: Seq<char>, suffixes: Seq<Seq<char>>, i: int)
    requires
        0 <= i < suffixes.len(),
        has_suffix(domain, suffixes[i]),
        forall|j: int| 0 <= j < i ==> !has_suffix(domain, #[trigger] suffixes[j]),
    ensures
        first_suffix(domain, suffixes) == Some(suffixes[i]),
    decreases suffixes.len(),
{
    if i > 0 {
        let rest = suffixes.skip(1);
        assert(!has_suffix(domain, suffixes[0]));
        assert forall|j: int| 0 <= j < i - 1 implies !has_suffix(domain, #[trigger] rest[j]) by {
            assert(rest[j] == suffixes[j + 1]);
        }
        assert(rest[i - 1] == suffixes[i]);
        lemma_first_suffix_is(domain, rest, i - 1);
    }
}

/// The text is a suffix in its plain form: ASCII without capital letters, no white space around it,
/// no point before it.
pub open spec fn is_plain_suffix(s: Seq<char>) -> bool {
    &&& s.len() > 0
    &&& !is_whitespace(s[0]) && !is_whitespace(s.last())
    &&& s[0] != '.'
    &&& is_ascii(s)
    &&& forall|i: int| 0 <= i < s.len() ==> !('A' <= #[trigger] s[i] <= 'Z')
}

/// A plain suffix is in its normal form, and that is what is left of it with a point or a blank
/// before it. A domain ends in it where it is the suffix, or where the suffix stands at its end after
/// a point.
pub proof fn suffixes_match_at_a_point(domain: Seq<char>, suffix: Seq<char>, below: Seq<char>)
    requires
        is_plain_suffix(suffix),
    ensures
        suffix_form(suffix) == suffix,
        suffix_form("."@ + suffix) == suffix,
        suffix_form(" "@ + suffix) == suffix,
        has_suffix(suffix, suffix),
        has_suffix(below + seq!['.'] + suffix, suffix),
        has_suffix(domain, suffix) ==> domain == suffix || {
            let k = domain.len() - suffix.len() - 1;
            k >= 0 && domain[k] == '.' && domain.skip(k + 1) == suffix
        },
{
    reveal_strlit(".");
    reveal_strlit(" ");
    assert(ascii_lower(suffix) =~= suffix);
    assert(trim(suffix) == suffix);
    let a = "."@ + suffix;
    assert(a[0] == '.' && a.last() == suffix.last());
    assert(trim(a) == a);
    assert(a.skip(1) =~= suffix);
    reveal_with_fuel(drop_leading, 2);
    let b = " "@ + suffix;
    assert(b[0] == ' ');
    assert(b.skip(1) =~= suffix);
    assert(is_whitespace(' '));
    assert(drop_leading(b, CharSet::Whitespace) == suffix);
    assert(trim(b) == suffix);
    domains_end_at_a_point(domain, suffix, below);
}

/// Capital letters in a suffix do not count: in its normal form it has the small ones.
pub proof fn capitals_in_suffixes_do_not_count(suffix: Seq<char>)
    requires
        suffix.len() > 0,
        is_ascii(suffix),
        !is_whitespace(suffix[0]),
        !is_whitespace(suffix.last()),
        suffix[0] != '.',
    ensures
        suffix_form(suffix) == ascii_lower(suffix),
        suffix_form("."@ + suffix) == ascii_lower(suffix),
{
    reveal_strlit(".");
    assert(trim(suffix) == suffix);
    let a = "."@ + suffix;
    assert(a[0] == '.' && a.last() == suffix.last());
    assert(trim(a) == a);
    assert(a.skip(1) =~= suffix);
    reveal_with_fuel(drop_leading, 2);
}

/// Addresses of the private networks and of this machine are private, whatever follows.
pub proof fn private_networks_are_private(rest: Seq<char>)
    ensures
        is_private("10."@ + rest),
        is_private("127."@ + rest),
        is_private("192.168."@ + rest),
        is_private("172.16."@ + rest),
        is_private("172.17."@ + rest),
        is_private("172.18."@ + rest),
        is_private("172.19."@ + rest),
        is_private("172.20."@ + rest),
        is_private("172.21."@ + rest),
        is_private("172.22."@ + rest),
        is_private("172.23."@ + rest),
        is_private("172.24."@ + rest),
        is_private("172.25."@ + rest),
        is_private("172.26."@ + rest),
        is_private("172.27."@ + rest),
        is_private("172.28."@ + rest),
        is_private("172.29."@ + rest),
        is_private("172.30."@ + rest),
        is_private("172.31."@ + rest),
        is_private("fc"@ + rest),
        is_private("fd"@ + rest),
        is_private("::1"@),
{
    lemma_prefixed_is_private("10."@, rest, 0);
    lemma_prefixed_is_private("127."@, rest, 1);
    lemma_prefixed_is_private("192.168."@, rest, 2);
    lemma_prefixed_is_private("172.16."@, rest, 3);
    lemma_prefixed_is_private("172.17."@, rest, 4);
    lemma_prefixed_is_private("172.18."@, rest, 5);
    lemma_prefixed_is_private("172.19."@, rest, 6);
    lemma_prefixed_is_private("172.20."@, rest, 7);
    lemma_prefixed_is_private("172.21."@, rest, 8);
    lemma_prefixed_is_private("172.22."@, rest, 9);
    lemma_prefixed_is_private("172.23."@, rest, 10);
    lemma_prefixed_is_private("172.24."@, rest, 11);
    lemma_prefixed_is_private("172.25."@, rest, 12);
    lemma_prefixed_is_private("172.26."@, rest, 13);
    lemma_prefixed_is_private("172.27."@, rest, 14);
    lemma_prefixed_is_private("172.28."@, rest, 15);
    lemma_prefixed_is_private("172.29."@, rest, 16);
    lemma_prefixed_is_private("172.30."@, rest, 17);
    lemma_prefixed_is_private("172.31."@, rest, 18);
    lemma_prefixed_is_private("fc"@, rest, 19);
    lemma_prefixed_is_private("fd"@, rest, 20);
}

proof fn lemma_prefixed_is_private(prefix: Seq<char>, rest: Seq<char>, i: int)
    requires
        0 <= i < private_prefixes().len(),
        private_prefixes()[i] == prefix,
    ensures
        is_private(prefix + rest),
{
    assert((prefix + rest).take(prefix.len() as int) =~= prefix);
    assert(starts_with(prefix + rest, private_prefixes()[i]));
}

/// An address that begins otherwise than with a one or with `fc` or `fd`, and is not that of this
/// machine, is not private. Of those that begin with a one and two more characters, only `10.`,
/// `127`, `172` and `192` can be private.
pub proof fn other_addresses_are_not_private(address: Seq<char>)
    requires
        address.len() >= 3,
        address != "::1"@,
        address[0] != 'f' || (address[1] != 'c' && address[1] != 'd'),
        address[0] != '1' || !((address[1] == '0' && address[2] == '.') || (address[1] == '2'
            && address[2] == '7') || (address[1] == '7' && address[2] == '2') || (address[1] == '9'
            && address[2] == '2')),
    ensures
        !is_private(address),
{
    reveal_strlit("10.");
    reveal_strlit("127.");
    reveal_strlit("192.168.");
    reveal_strlit("172.16.");
    reveal_strlit("172.17.");
    reveal_strlit("172.18.");
    reveal_strlit("172.19.");
    reveal_strlit("172.20.");
    reveal_strlit("172.21.");
    reveal_strlit("172.22.");
    reveal_strlit("172.23.");
    reveal_strlit("172.24.");
    reveal_strlit("172.25.");
    reveal_strlit("172.26.");
    reveal_strlit("172.27.");
    reveal_strlit("172.28.");
    reveal_strlit("172.29.");
    reveal_strlit("172.30.");
    reveal_strlit("172.31.");
    reveal_strlit("fc");
    reveal_strlit("fd");
    let p = private_prefixes();
    assert forall|i: int| 0 <= i < p.len() implies !starts_with(address, #[trigger] p[i]) by {
        if starts_with(address, p[i]) {
            let head = address.take(p[i].len() as int);
            assert(head[0] == address[0]);
            assert(head[1] == address[1]);
            if p[i].len() > 2 {
                assert(head[2] == address[2]);
            }
            if i <= 2 {
                assert(p[i] == "10."@ || p[i] == "127."@ || p[i] == "192.168."@);
            } else if i <= 18 {
                assert(p[i][0] == '1' && p[i][1] == '7' && p[i][2] == '2');
            } else {
                assert(p[i] == "fc"@ || p[i] == "fd"@);
            }
        }
    }
}

/// The list after more suffixes holds what it held before and the normal forms of those that came in,
/// but for empty ones and ones with control characters; and nothing else.
pub proof fn added_suffixes_are_listed(
    list: Seq<Seq<char>>,
    raws: Seq<Seq<char>>,
    t: Seq<char>,
)
    ensures
        add_suffixes(list, raws).contains(t) <==> list.contains(t) || (t.len() > 0 && !has_control(t)
            && exists|j: int| 0 <= j < raws.len() && suffix_form(#[trigger] raws[j]) == t),
    decreases raws.len(),
{
    if raws.len() > 0 {
        let rest = raws.drop_last();
        let last = raws.last();
        added_suffixes_are_listed(list, rest, t);
        let before = add_suffixes(list, rest);
        let suffix = suffix_form(last);
        assert(raws[raws.len() - 1] == last);
        if exists|j: int| 0 <= j < rest.len() && suffix_form(#[trigger] rest[j]) == t {
            let j = choose|j: int| 0 <= j < rest.len() && suffix_form(#[trigger] rest[j]) == t;
            assert(raws[j] == rest[j]);
        }
        if exists|j: int| 0 <= j < raws.len() && suffix_form(#[trigger] raws[j]) == t {
            let j = choose|j: int| 0 <= j < raws.len() && suffix_form(#[trigger] raws[j]) == t;
            if j < rest.len() {
                assert(rest[j] == raws[j]);
            }
        }
        let after = add_suffixes(list, raws);
        if after != before {
            assert(after == before.push(suffix));
            assert(after[before.len() as int] == suffix);
            if before.contains(t) {
                let i = choose|i: int| 0 <= i < before.len() && before[i] == t;
                assert(after[i] == t);
            }
            if after.contains(t) {
                let i = choose|i: int| 0 <= i < after.len() && after[i] == t;
                if i < before.len() {
                    assert(before[i] == t);
                }
            }
        }
    }
}

/// What stands after `#` in an entry of a plain list does not count.
pub proof fn comments_do_not_count(entry: Seq<char>, comment: Seq<char>)
    requires
        !entry.contains('#'),
    ensures
        suffix_entry(entry) == trim(entry),
        suffix_entry(entry + "#"@ + comment) == trim(entry),
{
    reveal_strlit("#");
    let set = CharSet::One('#');
    let n = entry.len() as int;
    assert forall|i: int| 0 <= i < n implies !set.has(#[trigger] entry[i]) by {
        if entry[i] == '#' {
            assert(entry.contains('#'));
        }
    }
    lemma_split_whole(entry, set);
    let whole = entry + "#"@ + comment;
    assert forall|i: int| 0 <= i < n implies !set.has(#[trigger] whole[i]) by {
        assert(whole[i] == entry[i]);
    }
    assert(whole[n] == '#');
    lemma_split_first(whole, set, n);
    assert(whole.take(n) =~= entry);
}

/// The suffixes in a text are those of the JSON list that was read from it; where it is none, those of
/// the entries between commas, tabs and ends of lines.
pub proof fn suffixes_are_read_in_either_form(
    json: Option<Seq<Seq<char>>>,
    content: Seq<char>,
    t: Seq<char>,
)
    ensures
        json is Some ==> (suffixes_in(json, content).contains(t) <==> t.len() > 0 && !has_control(t)
            && exists|j: int| 0 <= j < json->0.len() && suffix_form(#[trigger] json->0[j]) == t),
        json is None ==> (suffixes_in(json, content).contains(t) <==> t.len() > 0 && !has_control(t)
            && exists|j: int|
            0 <= j < split(content, CharSet::ListSeparators).len() && suffix_form(
                suffix_entry(#[trigger] split(content, CharSet::ListSeparators)[j]),
            ) == t),
{
    let none = Seq::<Seq<char>>::empty();
    match json {
        Some(values) => {
            added_suffixes_are_listed(none, values, t);
        },
        None => {
            let pieces = split(content, CharSet::ListSeparators);
            let entries = pieces.map_values(|e: Seq<char>| suffix_entry(e));
            added_suffixes_are_listed(none, entries, t);
            if exists|j: int| 0 <= j < entries.len() && suffix_form(#[trigger] entries[j]) == t {
                let j = choose|j: int|
                    0 <= j < entries.len() && suffix_form(#[trigger] entries[j]) == t;
                assert(suffix_form(suffix_entry(pieces[j])) == t);
            }
            if exists|j: int|
                0 <= j < pieces.len() && suffix_form(suffix_entry(#[trigger] pieces[j])) == t {
                let j = choose|j: int|
                    0 <= j < pieces.len() && suffix_form(suffix_entry(#[trigger] pieces[j])) == t;
                assert(suffix_form(entries[j]) == t);
            }
        },
    }
}

/// The configured suffixes are the default ones and those of the setting and of the file, in their
/// normal forms; and nothing else.
pub proof fn configured_suffixes_are_those_named(
    setting: Option<Seq<char>>,
    file: Option<Seq<char>>,
    t: Seq<char>,
)
    ensures
        direct_suffixes_of(setting, file).contains(t) <==> t.len() > 0 && !has_control(t) && {
            ||| exists|j: int|
                0 <= j < default_direct_suffixes().len() && suffix_form(
                    #[trigger] default_direct_suffixes()[j],
                ) == t
            ||| exists|j: int|
                0 <= j < suffixes_in_setting(setting).len() && suffix_form(
                    #[trigger] suffixes_in_setting(setting)[j],
                ) == t
            ||| exists|j: int|
                0 <= j < suffixes_in_setting(file).len() && suffix_form(
                    #[trigger] suffixes_in_setting(file)[j],
                ) == t
        },
{
    let none = Seq::<Seq<char>>::empty();
    let a = add_suffixes(none, default_direct_suffixes());
    let b = add_suffixes(a, suffixes_in_setting(setting));
    added_suffixes_are_listed(none, default_direct_suffixes(), t);
    added_suffixes_are_listed(a, suffixes_in_setting(setting), t);
    added_suffixes_are_listed(b, suffixes_in_setting(file), t);
}

/// Names in the national domain and of the services that are always reached directly go direct by
/// default, in whatever settings.
pub proof fn known_services_are_listed()
    ensures
        default_direct_suffixes().contains("cn"@),
        default_direct_suffixes().contains("baidu.com"@),
        default_direct_suffixes().contains("bdstatic.com"@),
        default_direct_suffixes().contains("bilibili.com"@),
        default_direct_suffixes().contains("bilivideo.com"@),
        default_direct_suffixes().contains("qq.com"@),
        default_direct_suffixes().contains("tencent.com"@),
        default_direct_suffixes().contains("gtimg.com"@),
        default_direct_suffixes().contains("taobao.com"@),
        default_direct_suffixes().contains("tmall.com"@),
        default_direct_suffixes().contains("alicdn.com"@),
        default_direct_suffixes().contains("alipay.com"@),
        default_direct_suffixes().contains("aliyun.com"@),
        default_direct_suffixes().contains("bytedance.com"@),
        default_direct_suffixes().contains("douyin.com"@),
        default_direct_suffixes().contains("feishu.cn"@),
        default_direct_suffixes().contains("larksuite.com"@),
        default_direct_suffixes().contains("weibo.com"@),
        default_direct_suffixes().contains("zhihu.com"@),
        default_direct_suffixes().contains("mi.com"@),
        default_direct_suffixes().contains("xiaomi.com"@),
        default_direct_suffixes().contains("tuna.tsinghua.edu.cn"@),
        default_direct_suffixes().contains("ustc.edu.cn"@),
{
    let s = default_direct_suffixes();
    assert forall|i: int| 0 <= i < s.len() implies s.contains(#[trigger] s[i]) by {}
    assert(s[0] == "cn"@ && s[1] == "baidu.com"@ && s[2] == "bdstatic.com"@ && s[3]
        == "bilibili.com"@ && s[4] == "bilivideo.com"@ && s[5] == "qq.com"@ && s[6]
        == "tencent.com"@ && s[7] == "gtimg.com"@ && s[8] == "taobao.com"@ && s[9] == "tmall.com"@
        && s[10] == "alicdn.com"@ && s[11] == "alipay.com"@ && s[12] == "aliyun.com"@ && s[13]
        == "bytedance.com"@ && s[14] == "douyin.com"@ && s[15] == "feishu.cn"@ && s[16]
        == "larksuite.com"@ && s[17] == "weibo.com"@ && s[18] == "zhihu.com"@ && s[19] == "mi.com"@
        && s[20] == "xiaomi.com"@ && s[21] == "tuna.tsinghua.edu.cn"@ && s[22]
        == "ustc.edu.cn"@);
}

// ---------------------------------------------------------------------------
// Classified bytes
// ---------------------------------------------------------------------------

/// The bytes of one domain, with the domain's classification.
#[derive(Debug)]
pub struct ClassifiedDomainDelta {
    pub bytes: i64,
    pub should_proxy: bool,
    pub category: String,
    pub reason: String,
}

/// What a classified number of bytes says.
#[verifier::ext_equal]
pub struct Classified {
    pub bytes: int,
    pub verdict: Verdict,
}

impl Model for ClassifiedDomainDelta {
    type M = Classified;

    open spec fn model(&self) -> Classified {
        Classified {
            bytes: self.bytes as int,
            verdict: Verdict {
                should_proxy: self.should_proxy,
                category: self.category@,
                reason: self.reason@,
            },
        }
    }

    fn duplicate(&self) -> (r: ClassifiedDomainDelta) {
        ClassifiedDomainDelta {
            bytes: self.bytes,
            should_proxy: self.should_proxy,
            category: self.category.clone(),
            reason: self.reason.clone(),
        }
    }
}

impl ClassifiedDomainDelta {
    /// The classification without the bytes.
    pub fn classification(&self) -> (r: TrafficClassification)
        ensures
            r.verdict() == self.model().verdict,
    {
        TrafficClassification {
            should_proxy: self.should_proxy,
            category: self.category.clone(),
            reason: self.reason.clone(),
        }
    }
}

/// The bytes under `k`, zero where there is no entry.
pub open spec fn bytes_of(m: Map<Seq<char>, Classified>, k: Seq<char>) -> int {
    if m.contains_key(k) {
        m[k].bytes
    } else {
        0
    }
}

/// The map after more bytes of a domain: they are added up, and the new classification stands.
pub open spec fn merged(
    m: Map<Seq<char>, Classified>,
    domain: Seq<char>,
    bytes: int,
    verdict: Verdict,
) -> Map<Seq<char>, Classified> {
    m.insert(domain, (Classified { bytes: bytes_of(m, domain) + bytes, verdict }))
}

/// Adds bytes of a domain, and sets its classification.
pub fn merge_classified_delta(
    map: &mut TextMap<ClassifiedDomainDelta>,
    domain: &str,
    bytes: i64,
    classification: &TrafficClassification,
)
    requires
        fits(bytes_of(old(map).map(), domain@) + bytes),
    ensures
        final(map).map() == merged(old(map).map(), domain@, bytes as int, classification.verdict()),
{
    let entry = map.entry(
        domain,
        ClassifiedDomainDelta {
            bytes: 0,
            should_proxy: classification.should_proxy,
            category: classification.category.clone(),
            reason: classification.reason.clone(),
        },
    );
    entry.bytes = entry.bytes + bytes;
    entry.should_proxy = classification.should_proxy;
    entry.category = classification.category.clone();
    entry.reason = classification.reason.clone();
}

/// The map after all bytes of another one are merged into it.
pub open spec fn plus_classified(
    m: Map<Seq<char>, Classified>,
    d: Map<Seq<char>, Classified>,
) -> Map<Seq<char>, Classified> {
    Map::new(
        |k: Seq<char>| m.contains_key(k) || d.contains_key(k),
        |k: Seq<char>|
            if d.contains_key(k) {
                Classified { bytes: bytes_of(m, k) + d[k].bytes, verdict: d[k].verdict }
            } else {
                m[k]
            },
    )
}

/// Every sum of the two maps is an `i64`.
pub open spec fn classified_fit(
    m: Map<Seq<char>, Classified>,
    d: Map<Seq<char>, Classified>,
) -> bool {
    forall|k: Seq<char>| #[trigger] d.contains_key(k) ==> fits(bytes_of(m, k) + d[k].bytes)
}

proof fn lemma_plus_classified_insert(
    m: Map<Seq<char>, Classified>,
    d: Map<Seq<char>, Classified>,
    k: Seq<char>,
    v: Classified,
)
    requires
        !d.contains_key(k),
    ensures
        plus_classified(m, d.insert(k, v)) == merged(plus_classified(m, d), k, v.bytes, v.verdict),
        bytes_of(plus_classified(m, d), k) == bytes_of(m, k),
{
    assert(plus_classified(m, d.insert(k, v)) =~= merged(
        plus_classified(m, d),
        k,
        v.bytes,
        v.verdict,
    ));
}

impl TextMap<ClassifiedDomainDelta> {
    /// The bytes under `key`, zero where there is no entry.
    pub fn bytes(&self, key: &str) -> (r: i64)
        ensures
            r == bytes_of(self.map(), key@),
    {
        match self.get(key) {
            Some(d) => d.bytes,
            None => 0,
        }
    }

    /// Whether every sum of the bytes here and in `d` is an `i64`.
    pub fn classified_fit(&self, d: &TextMap<ClassifiedDomainDelta>) -> (r: bool)
        ensures
            r == classified_fit(self.map(), d.map()),
    {
        let n: usize = d.len();
        proof {
            lemma_map_of(d.keys(), d.values());
        }
        for i in 0..n
            invariant
                n == d.keys().len(),
                d.wf(),
                forall|j: int|
                    0 <= j < n ==> d.map().contains_key(#[trigger] d.keys()[j]) && d.map()[d.keys()[j]]
                        == d.values()[j],
                forall|j: int|
                    0 <= j < i ==> fits(
                        bytes_of(self.map(), #[trigger] d.keys()[j]) + d.values()[j].bytes,
                    ),
        {
            let k = d.key_at(i);
            let v = d.value_at(i);
            if !sum_fits(self.bytes(k.as_str()), v.bytes) {
                assert(d.map().contains_key(d.keys()[i as int]));
                return false;
            }
        }
        assert forall|k: Seq<char>| #[trigger] d.map().contains_key(k) implies fits(
            bytes_of(self.map(), k) + d.map()[k].bytes,
        ) by {
            let j = choose|j: int| 0 <= j < n && d.keys()[j] == k;
            assert(d.map()[d.keys()[j]] == d.values()[j]);
        }
        true
    }

    /// Merges all bytes of `d` into this map.
    pub fn add_classified(&mut self, d: &TextMap<ClassifiedDomainDelta>)
        requires
            classified_fit(old(self).map(), d.map()),
        ensures
            final(self).map() == plus_classified(old(self).map(), d.map()),
    {
        let n: usize = d.len();
        let ghost start = self.map();
        proof {
            lemma_map_of(d.keys(), d.values());
            assert(d.keys().take(0) =~= Seq::<Seq<char>>::empty());
            assert(plus_classified(start, Map::empty()) =~= start);
        }
        for i in 0..n
            invariant
                n == d.keys().len(),
                d.wf(),
                classified_fit(start, d.map()),
                forall|j: int|
                    0 <= j < n ==> d.map().contains_key(#[trigger] d.keys()[j]) && d.map()[d.keys()[j]]
                        == d.values()[j],
                self.map() == plus_classified(
                    start,
                    map_of(d.keys().take(i as int), d.values().take(i as int)),
                ),
        {
            let k = d.key_at(i);
            let v = d.value_at(i);
            proof {
                assert(d.map().contains_key(d.keys()[i as int]));
                lemma_map_of_take(d.keys(), d.values(), i as int);
                lemma_plus_classified_insert(
                    start,
                    map_of(d.keys().take(i as int), d.values().take(i as int)),
                    k@,
                    v.model(),
                );
            }
            let classification = v.classification();
            merge_classified_delta(self, k.as_str(), v.bytes, &classification);
        }
        assert(d.keys().take(n as int) =~= d.keys());
        assert(d.values().take(n as int) =~= d.values());
    }
}

/// Classified bytes are merged domain by domain: those that come in are added to what is there, from
/// nothing where nothing is, with the classification that comes in; no other domain changes.
pub proof fn bytes_are_merged_by_domain(
    m: Map<Seq<char>, Classified>,
    d: Map<Seq<char>, Classified>,
    k: Seq<char>,
)
    ensures
        d.contains_key(k) ==> classified_grows_by(m, plus_classified(m, d), k, d[k]),
        !d.contains_key(k) ==> stays_under(m, plus_classified(m, d), k),
{
}

/// Merging bytes of one domain adds them to that domain alone.
pub proof fn one_domain_is_merged(
    m: Map<Seq<char>, Classified>,
    domain: Seq<char>,
    bytes: int,
    verdict: Verdict,
    k: Seq<char>,
)
    ensures
        classified_grows_by(
            m,
            merged(m, domain, bytes, verdict),
            domain,
            (Classified { bytes, verdict }),
        ),
        k != domain ==> stays_under(m, merged(m, domain, bytes, verdict), k),
{
}

/// The bytes under `k` have grown by those of `more`, from nothing where there were none, and the
/// classification is that of `more`.
pub open spec fn classified_grows_by(
    before: Map<Seq<char>, Classified>,
    after: Map<Seq<char>, Classified>,
    k: Seq<char>,
    more: Classified,
) -> bool {
    &&& after.contains_key(k)
    &&& before.contains_key(k) ==> after[k].bytes == before[k].bytes + more.bytes
    &&& !before.contains_key(k) ==> after[k].bytes == more.bytes
    &&& after[k].verdict.should_proxy == more.verdict.should_proxy
    &&& after[k].verdict.category == more.verdict.category
    &&& after[k].verdict.reason == more.verdict.reason
}

/// What a classification and classified bytes say is what their fields hold, each under its own name.
pub proof fn classifications_say_what_they_hold(
    c: TrafficClassification,
    d: ClassifiedDomainDelta,
)
    ensures
        c.verdict().should_proxy == c.should_proxy,
        c.verdict().category == c.category@,
        c.verdict().reason == c.reason@,
        d.model().bytes == d.bytes,
        d.model().verdict.should_proxy == d.should_proxy,
        d.model().verdict.category == d.category@,
        d.model().verdict.reason == d.reason@,
{
}

} // verus!
