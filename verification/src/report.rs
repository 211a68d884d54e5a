//! Reports of traffic, and which of them are accepted.

use crate::classify::{has_control, Classified, ClassifiedDomainDelta};
use crate::text::{
    as_i64, byte_len, char_is_control, chars_of, decimal, is_blank, is_control, is_whitespace,
    opt_view, parse_i64, signed_in, trim, utf8_len, white_space_is_trimmed,
    written_numbers_read_back,
};
use crate::text_map::{lemma_map_of, TextMap};
use vstd::prelude::*;
use vstd::string::StringExecFns;
use vstd::utf8::encode_utf8;

verus! {

/// What a device reports: the bytes since its last report, or that it is there.
pub struct TrafficReportRequest {
    pub report_id: String,
    pub device_name: String,
    pub download_delta: i64,
    pub upload_delta: i64,
    pub current_node_ip: String,
    pub domain_deltas: TextMap<i64>,
    pub abnormal_domain_deltas: TextMap<ClassifiedDomainDelta>,
    /// `delta` for bytes, `heartbeat` for none.
    pub report_kind: String,
}

/// What a report says.
#[verifier::ext_equal]
pub struct Report {
    pub id: Seq<char>,
    pub device: Seq<char>,
    pub download: int,
    pub upload: int,
    pub node: Seq<char>,
    pub domains: Map<Seq<char>, int>,
    pub abnormal: Map<Seq<char>, Classified>,
    pub kind: Seq<char>,
}

impl TrafficReportRequest {
    pub open spec fn report(self) -> Report {
        Report {
            id: self.report_id@,
            device: self.device_name@,
            download: self.download_delta as int,
            upload: self.upload_delta as int,
            node: self.current_node_ip@,
            domains: self.domain_deltas.map(),
            abnormal: self.abnormal_domain_deltas.map(),
            kind: self.report_kind@,
        }
    }
}

// ---------------------------------------------------------------------------
// Which reports are accepted
// ---------------------------------------------------------------------------

/// A text that can be shown: not blank, at most `max_len` bytes, no control characters.
pub open spec fn is_label(value: Seq<char>, max_len: int) -> bool {
    trim(value).len() > 0 && byte_len(value) <= max_len && !has_control(value)
}

/// Whether a text can be shown.
pub fn valid_public_label(value: &str, max_len: usize) -> (r: bool)
    ensures
        r == is_label(value@, max_len as int),
{
    if is_blank(value) || utf8_len(value) > max_len {
        return false;
    }
    let v = chars_of(value);
    for i in 0..v.len()
        invariant
            v@ == value@,
            forall|j: int| 0 <= j < i ==> !is_control(#[trigger] v@[j]),
    {
        if char_is_control(v[i]) {
            assert(is_control(v@[i as int]));
            return false;
        }
    }
    true
}

/// The most bytes that one report may add, from the setting.
pub open spec fn max_delta_by(setting: Option<Seq<char>>) -> i64 {
    match setting {
        Some(text) => match as_i64(signed_in(text)) {
            Some(n) => n,
            None => 10_995_116_277_760,
        },
        None => 10_995_116_277_760,
    }
}

/// The most bytes that one report may add, from the setting.
pub fn max_report_delta(setting: Option<&str>) -> (r: i64)
    ensures
        r == max_delta_by(
            match setting {
                Some(s) => Some(s@),
                None => None,
            },
        ),
{
    match setting {
        Some(text) => {
            let v = chars_of(text);
            match parse_i64(v.as_slice()) {
                Some(n) => n,
                None => 10_995_116_277_760,
            }
        },
        None => 10_995_116_277_760,
    }
}

/// What is wrong with the bytes of a domain, if anything.
pub open spec fn domain_error(domain: Seq<char>, bytes: int, max_delta: int) -> Option<
    Seq<char>,
> {
    if bytes < 0 || bytes > max_delta {
        Some("域名 "@ + domain + " 的流量增量非法"@)
    } else if !is_label(domain, 253) {
        Some("域名包含非法字符或过长"@)
    } else {
        None
    }
}

/// What is wrong with the classified bytes of a domain, if anything.
pub open spec fn abnormal_error(domain: Seq<char>, detail: Classified, max_delta: int) -> Option<
    Seq<char>,
> {
    if detail.bytes < 0 || detail.bytes > max_delta {
        Some("异常域名 "@ + domain + " 的流量增量非法"@)
    } else if !is_label(domain, 253) || !is_label(detail.verdict.category, 64) || !is_label(
        detail.verdict.reason,
        256,
    ) {
        Some("异常域名分类字段包含非法字符或过长"@)
    } else {
        None
    }
}

/// What is wrong with the first wrong entry, in the order of the entries.
pub open spec fn first_domain_error(
    keys: Seq<Seq<char>>,
    values: Seq<int>,
    max_delta: int,
) -> Option<Seq<char>>
    decreases keys.len(),
{
    if keys.len() == 0 {
        None
    } else {
        match first_domain_error(keys.drop_last(), values.drop_last(), max_delta) {
            Some(e) => Some(e),
            None => domain_error(keys.last(), values.last(), max_delta),
        }
    }
}

/// What is wrong with the first wrong entry, in the order of the entries.
pub open spec fn first_abnormal_error(
    keys: Seq<Seq<char>>,
    values: Seq<Classified>,
    max_delta: int,
) -> Option<Seq<char>>
    decreases keys.len(),
{
    if keys.len() == 0 {
        None
    } else {
        match first_abnormal_error(keys.drop_last(), values.drop_last(), max_delta) {
            Some(e) => Some(e),
            None => abnormal_error(keys.last(), values.last(), max_delta),
        }
    }
}

/// What is wrong with a report, if anything: the first rule that it breaks.
pub open spec fn report_error(p: TrafficReportRequest, max_delta: int) -> Option<Seq<char>> {
    if p.report_id@.len() > 0 && !is_label(p.report_id@, 128) {
        Some("report_id 包含非法字符或过长"@)
    } else if !is_label(p.device_name@, 64) {
        Some("device_name 不能为空，且长度不能超过 64 个字符"@)
    } else if p.current_node_ip@.len() > 0 && !is_label(p.current_node_ip@, 255) {
        Some("current_node_ip 包含非法字符或过长"@)
    } else if p.download_delta < 0 || p.upload_delta < 0 {
        Some("流量增量不能为负数"@)
    } else if p.download_delta > max_delta || p.upload_delta > max_delta {
        Some("单次上报流量超过保护阈值"@)
    } else if p.domain_deltas.keys().len() > 2000 || p.abnormal_domain_deltas.keys().len() > 2000 {
        Some("单次上报域名数量超过保护阈值"@)
    } else {
        match first_domain_error(p.domain_deltas.keys(), p.domain_deltas.values(), max_delta) {
            Some(e) => Some(e),
            None => first_abnormal_error(
                p.abnormal_domain_deltas.keys(),
                p.abnormal_domain_deltas.values(),
                max_delta,
            ),
        }
    }
}

fn check_domains(m: &TextMap<i64>, max_delta: i64) -> (r: Option<String>)
    ensures
        opt_view(r) == first_domain_error(m.keys(), m.values(), max_delta as int),
{
    let n: usize = m.len();
    let ghost ks = m.keys();
    let ghost vs = m.values();
    assert(ks.take(0) =~= Seq::<Seq<char>>::empty());
    for i in 0..n
        invariant
            n == ks.len(),
            ks == m.keys(),
            vs == m.values(),
            m.wf(),
            first_domain_error(ks.take(i as int), vs.take(i as int), max_delta as int) is None,
    {
        let domain = m.key_at(i);
        let bytes: i64 = *m.value_at(i);
        proof {
            lemma_domain_error_stays(ks, vs, max_delta as int, i as int + 1);
            assert(ks.take(i as int + 1).drop_last() =~= ks.take(i as int));
            assert(vs.take(i as int + 1).drop_last() =~= vs.take(i as int));
        }
        if bytes < 0 || bytes > max_delta {
            return Some("域名 ".to_owned().concat(domain.as_str()).concat(" 的流量增量非法"));
        }
        if !valid_public_label(domain.as_str(), 253) {
            return Some("域名包含非法字符或过长".to_owned());
        }
    }
    assert(ks.take(n as int) =~= ks);
    assert(vs.take(n as int) =~= vs);
    None
}

proof fn lemma_domain_error_stays(
    keys: Seq<Seq<char>>,
    values: Seq<int>,
    max_delta: int,
    k: int,
)
    requires
        keys.len() == values.len(),
        0 <= k <= keys.len(),
    ensures
        first_domain_error(keys.take(k), values.take(k), max_delta) is Some ==> first_domain_error(
            keys,
            values,
            max_delta,
        ) == first_domain_error(keys.take(k), values.take(k), max_delta),
    decreases keys.len(),
{
    if k == keys.len() {
        assert(keys.take(k) =~= keys);
        assert(values.take(k) =~= values);
    } else {
        assert(keys.drop_last().take(k) =~= keys.take(k));
        assert(values.drop_last().take(k) =~= values.take(k));
        lemma_domain_error_stays(keys.drop_last(), values.drop_last(), max_delta, k);
    }
}

fn check_abnormal(m: &TextMap<ClassifiedDomainDelta>, max_delta: i64) -> (r: Option<String>)
    ensures
        opt_view(r) == first_abnormal_error(m.keys(), m.values(), max_delta as int),
{
    let n: usize = m.len();
    let ghost ks = m.keys();
    let ghost vs = m.values();
    assert(ks.take(0) =~= Seq::<Seq<char>>::empty());
    for i in 0..n
        invariant
            n == ks.len(),
            ks == m.keys(),
            vs == m.values(),
            m.wf(),
            first_abnormal_error(ks.take(i as int), vs.take(i as int), max_delta as int) is None,
    {
        let domain = m.key_at(i);
        let detail = m.value_at(i);
        proof {
            lemma_abnormal_error_stays(ks, vs, max_delta as int, i as int + 1);
            assert(ks.take(i as int + 1).drop_last() =~= ks.take(i as int));
            assert(vs.take(i as int + 1).drop_last() =~= vs.take(i as int));
        }
        if detail.bytes < 0 || detail.bytes > max_delta {
            return Some("异常域名 ".to_owned().concat(domain.as_str()).concat(" 的流量增量非法"));
        }
        if !valid_public_label(domain.as_str(), 253) || !valid_public_label(
            detail.category.as_str(),
            64,
        ) || !valid_public_label(detail.reason.as_str(), 256) {
            return Some("异常域名分类字段包含非法字符或过长".to_owned());
        }
    }
    assert(ks.take(n as int) =~= ks);
    assert(vs.take(n as int) =~= vs);
    None
}

proof fn lemma_abnormal_error_stays(
    keys: Seq<Seq<char>>,
    values: Seq<Classified>,
    max_delta: int,
    k: int,
)
    requires
        keys.len() == values.len(),
        0 <= k <= keys.len(),
    ensures
        first_abnormal_error(keys.take(k), values.take(k), max_delta) is Some
            ==> first_abnormal_error(keys, values, max_delta) == first_abnormal_error(
            keys.take(k),
            values.take(k),
            max_delta,
        ),
    decreases keys.len(),
{
    if k == keys.len() {
        assert(keys.take(k) =~= keys);
        assert(values.take(k) =~= values);
    } else {
        assert(keys.drop_last().take(k) =~= keys.take(k));
        assert(values.drop_last().take(k) =~= values.take(k));
        lemma_abnormal_error_stays(keys.drop_last(), values.drop_last(), max_delta, k);
    }
}

/// Checks a report against the rules; `max_delta` is the most bytes that it may add.
pub fn validate_report_payload(payload: &TrafficReportRequest, max_delta: i64) -> (r: Result<
    (),
    String,
>)
    ensures
        match r {
            Ok(_) => report_error(*payload, max_delta as int) is None,
            Err(e) => report_error(*payload, max_delta as int) == Some(e@),
        },
{
    if !payload.report_id.as_str().is_empty() && !valid_public_label(
        payload.report_id.as_str(),
        128,
    ) {
        return Err("report_id 包含非法字符或过长".to_owned());
    }
    if !valid_public_label(payload.device_name.as_str(), 64) {
        return Err("device_name 不能为空，且长度不能超过 64 个字符".to_owned());
    }
    if !payload.current_node_ip.as_str().is_empty() && !valid_public_label(
        payload.current_node_ip.as_str(),
        255,
    ) {
        return Err("current_node_ip 包含非法字符或过长".to_owned());
    }
    if payload.download_delta < 0 || payload.upload_delta < 0 {
        return Err("流量增量不能为负数".to_owned());
    }
    if payload.download_delta > max_delta || payload.upload_delta > max_delta {
        return Err("单次上报流量超过保护阈值".to_owned());
    }
    if payload.domain_deltas.len() > 2000 || payload.abnormal_domain_deltas.len() > 2000 {
        return Err("单次上报域名数量超过保护阈值".to_owned());
    }
    if let Some(e) = check_domains(&payload.domain_deltas, max_delta) {
        return Err(e);
    }
    if let Some(e) = check_abnormal(&payload.abnormal_domain_deltas, max_delta) {
        return Err(e);
    }
    Ok(())
}

/// A report keeps all rules.
pub open spec fn is_acceptable(p: Report, max_delta: int) -> bool {
    &&& p.id.len() > 0 ==> is_label(p.id, 128)
    &&& is_label(p.device, 64)
    &&& p.node.len() > 0 ==> is_label(p.node, 255)
    &&& 0 <= p.download <= max_delta
    &&& 0 <= p.upload <= max_delta
    &&& p.domains.dom().len() <= 2000
    &&& p.abnormal.dom().len() <= 2000
    &&& forall|d: Seq<char>| #[trigger]
        p.domains.contains_key(d) ==> 0 <= p.domains[d] <= max_delta && is_label(d, 253)
    &&& forall|d: Seq<char>| #[trigger]
        p.abnormal.contains_key(d) ==> 0 <= p.abnormal[d].bytes <= max_delta && is_label(d, 253)
            && is_label(p.abnormal[d].verdict.category, 64) && is_label(
            p.abnormal[d].verdict.reason,
            256,
        )
}

/// A report is accepted exactly where it keeps all rules, whatever the order of its entries.
pub proof fn accepted_exactly_when(p: TrafficReportRequest, max_delta: int)
    requires
        p.domain_deltas.wf(),
        p.abnormal_domain_deltas.wf(),
    ensures
        report_error(p, max_delta) is None <==> is_acceptable(p.report(), max_delta),
{
    let d = p.domain_deltas;
    let a = p.abnormal_domain_deltas;
    lemma_map_of(d.keys(), d.values());
    lemma_map_of(a.keys(), a.values());
    lemma_domains_ok(d.keys(), d.values(), max_delta);
    lemma_abnormal_ok(a.keys(), a.values(), max_delta);
    assert(d.map().dom() =~= d.keys().to_set());
    d.keys().unique_seq_to_set();
    assert(a.map().dom() =~= a.keys().to_set());
    a.keys().unique_seq_to_set();
    if first_domain_error(d.keys(), d.values(), max_delta) is None {
        assert forall|k: Seq<char>| #[trigger] d.map().contains_key(k) implies domain_error(
            k,
            d.map()[k],
            max_delta,
        ) is None by {
            let i = choose|i: int| 0 <= i < d.keys().len() && d.keys()[i] == k;
            assert(d.map()[d.keys()[i]] == d.values()[i]);
        }
    }
    if first_abnormal_error(a.keys(), a.values(), max_delta) is None {
        assert forall|k: Seq<char>| #[trigger] a.map().contains_key(k) implies abnormal_error(
            k,
            a.map()[k],
            max_delta,
        ) is None by {
            let i = choose|i: int| 0 <= i < a.keys().len() && a.keys()[i] == k;
            assert(a.map()[a.keys()[i]] == a.values()[i]);
        }
    }
    if is_acceptable(p.report(), max_delta) {
        assert forall|i: int| 0 <= i < d.keys().len() implies domain_error(
            #[trigger] d.keys()[i],
            d.values()[i],
            max_delta,
        ) is None by {
            assert(d.map().contains_key(d.keys()[i]));
        }
        assert forall|i: int| 0 <= i < a.keys().len() implies abnormal_error(
            #[trigger] a.keys()[i],
            a.values()[i],
            max_delta,
        ) is None by {
            assert(a.map().contains_key(a.keys()[i]));
        }
    }
}

proof fn lemma_domains_ok(keys: Seq<Seq<char>>, values: Seq<int>, max_delta: int)
    requires
        keys.len() == values.len(),
    ensures
        first_domain_error(keys, values, max_delta) is None <==> forall|i: int|
            0 <= i < keys.len() ==> domain_error(
                #[trigger] keys[i],
                values[i],
                max_delta,
            ) is None,
    decreases keys.len(),
{
    if keys.len() > 0 {
        let k0 = keys.drop_last();
        let v0 = values.drop_last();
        lemma_domains_ok(k0, v0, max_delta);
        assert(forall|i: int| 0 <= i < k0.len() ==> k0[i] == #[trigger] keys[i]);
        if forall|i: int|
            0 <= i < keys.len() ==> domain_error(#[trigger] keys[i], values[i], max_delta) is None {
            assert forall|i: int| 0 <= i < k0.len() implies domain_error(
                #[trigger] k0[i],
                v0[i],
                max_delta,
            ) is None by {
                assert(domain_error(keys[i], values[i], max_delta) is None);
            }
            assert(domain_error(keys[keys.len() - 1], values[keys.len() - 1], max_delta) is None);
        }
    }
}

proof fn lemma_abnormal_ok(keys: Seq<Seq<char>>, values: Seq<Classified>, max_delta: int)
    requires
        keys.len() == values.len(),
    ensures
        first_abnormal_error(keys, values, max_delta) is None <==> forall|i: int|
            0 <= i < keys.len() ==> abnormal_error(
                #[trigger] keys[i],
                values[i],
                max_delta,
            ) is None,
    decreases keys.len(),
{
    if keys.len() > 0 {
        let k0 = keys.drop_last();
        let v0 = values.drop_last();
        lemma_abnormal_ok(k0, v0, max_delta);
        assert(forall|i: int| 0 <= i < k0.len() ==> k0[i] == #[trigger] keys[i]);
        if forall|i: int|
            0 <= i < keys.len() ==> abnormal_error(
                #[trigger] keys[i],
                values[i],
                max_delta,
            ) is None {
            assert forall|i: int| 0 <= i < k0.len() implies abnormal_error(
                #[trigger] k0[i],
                v0[i],
                max_delta,
            ) is None by {
                assert(abnormal_error(keys[i], values[i], max_delta) is None);
            }
            assert(abnormal_error(keys[keys.len() - 1], values[keys.len() - 1], max_delta) is None);
        }
    }
}

/// A text can be shown exactly where it holds a character that is not white space, takes at most
/// `max_len` bytes, and holds no control character.
pub proof fn labels_can_be_shown(value: Seq<char>, max_len: int)
    ensures
        is_label(value, max_len) <==> {
            &&& exists|i: int| 0 <= i < value.len() && !is_whitespace(#[trigger] value[i])
            &&& encode_utf8(value).len() <= max_len
            &&& forall|i: int|
                0 <= i < value.len() ==> !(#[trigger] value[i] as int <= 0x1f || 0x7f
                    <= value[i] as int <= 0x9f)
        },
{
    let (a, b) = white_space_is_trimmed(value);
    if a < b {
        assert(!is_whitespace(value[a]));
    }
    if exists|i: int| 0 <= i < value.len() && !is_whitespace(#[trigger] value[i]) {
        let i = choose|i: int| 0 <= i < value.len() && !is_whitespace(#[trigger] value[i]);
        assert(a <= i < b);
    }
}

/// A setting that is a number gives the most bytes of a report; without a setting, and with one that
/// is no number, it is ten tebibytes.
pub proof fn limits_are_read_from_settings(n: i64, other: Seq<char>)
    requires
        n >= 0,
        signed_in(other) is None,
    ensures
        max_delta_by(Some(decimal(n as nat))) == n,
        max_delta_by(Some(other)) == 10 * 1024 * 1024 * 1024 * 1024,
        max_delta_by(None) == 10 * 1024 * 1024 * 1024 * 1024,
{
    written_numbers_read_back(n as nat);
}

/// What is said of a report is about the first rule that it breaks: those of its id, its device, its
/// node, its bytes, and the number of its domains, in this order.
pub proof fn refusals_name_the_first_rule(p: TrafficReportRequest, max_delta: int)
    ensures
        ({
            let id = p.report_id@.len() == 0 || is_label(p.report_id@, 128);
            let device = is_label(p.device_name@, 64);
            let node = p.current_node_ip@.len() == 0 || is_label(p.current_node_ip@, 255);
            let positive = p.download_delta >= 0 && p.upload_delta >= 0;
            let bounded = p.download_delta <= max_delta && p.upload_delta <= max_delta;
            let few = p.domain_deltas.keys().len() <= 2000 && p.abnormal_domain_deltas.keys().len()
                <= 2000;
            let e = report_error(p, max_delta);
            &&& !id ==> e == Some("report_id 包含非法字符或过长"@)
            &&& id && !device ==> e == Some(
                "device_name 不能为空，且长度不能超过 64 个字符"@,
            )
            &&& id && device && !node ==> e == Some("current_node_ip 包含非法字符或过长"@)
            &&& id && device && node && !positive ==> e == Some("流量增量不能为负数"@)
            &&& id && device && node && positive && !bounded ==> e == Some(
                "单次上报流量超过保护阈值"@,
            )
            &&& id && device && node && positive && bounded && !few ==> e == Some(
                "单次上报域名数量超过保护阈值"@,
            )
        }),
{
}

/// What is said of the domains of a report is about the first one, in the order of the entries, whose
/// bytes are out of bounds or that cannot be shown; the bytes are looked at first.
pub proof fn refusals_name_the_first_domain(
    keys: Seq<Seq<char>>,
    values: Seq<int>,
    max_delta: int,
    i: int,
)
    requires
        keys.len() == values.len(),
        0 <= i < keys.len(),
        forall|j: int|
            0 <= j < i ==> 0 <= values[j] <= max_delta && is_label(#[trigger] keys[j], 253),
    ensures
        values[i] < 0 || values[i] > max_delta ==> first_domain_error(keys, values, max_delta)
            == Some("域名 "@ + keys[i] + " 的流量增量非法"@),
        0 <= values[i] <= max_delta && !is_label(keys[i], 253) ==> first_domain_error(
            keys,
            values,
            max_delta,
        ) == Some("域名包含非法字符或过长"@),
{
    let before = keys.take(i);
    let counts = values.take(i);
    assert forall|j: int| 0 <= j < i implies domain_error(
        #[trigger] before[j],
        counts[j],
        max_delta,
    ) is None by {
        assert(before[j] == keys[j]);
    }
    lemma_domains_ok(before, counts, max_delta);
    assert(keys.take(i + 1).drop_last() =~= before);
    assert(values.take(i + 1).drop_last() =~= counts);
    lemma_domain_error_stays(keys, values, max_delta, i + 1);
}

/// What is said of the classified domains of a report is about the first one, in the order of the
/// entries, whose bytes are out of bounds or that cannot be shown with its category and its reason.
pub proof fn refusals_name_the_first_classified(
    keys: Seq<Seq<char>>,
    values: Seq<Classified>,
    max_delta: int,
    i: int,
)
    requires
        keys.len() == values.len(),
        0 <= i < keys.len(),
        forall|j: int|
            0 <= j < i ==> 0 <= values[j].bytes <= max_delta && is_label(#[trigger] keys[j], 253)
                && is_label(values[j].verdict.category, 64) && is_label(
                values[j].verdict.reason,
                256,
            ),
    ensures
        values[i].bytes < 0 || values[i].bytes > max_delta ==> first_abnormal_error(
            keys,
            values,
            max_delta,
        ) == Some("异常域名 "@ + keys[i] + " 的流量增量非法"@),
        0 <= values[i].bytes <= max_delta && !(is_label(keys[i], 253) && is_label(
            values[i].verdict.category,
            64,
        ) && is_label(values[i].verdict.reason, 256)) ==> first_abnormal_error(
            keys,
            values,
            max_delta,
        ) == Some("异常域名分类字段包含非法字符或过长"@),
{
    let before = keys.take(i);
    let details = values.take(i);
    assert forall|j: int| 0 <= j < i implies abnormal_error(
        #[trigger] before[j],
        details[j],
        max_delta,
    ) is None by {
        assert(before[j] == keys[j]);
    }
    lemma_abnormal_ok(before, details, max_delta);
    assert(keys.take(i + 1).drop_last() =~= before);
    assert(values.take(i + 1).drop_last() =~= details);
    lemma_abnormal_error_stays(keys, values, max_delta, i + 1);
}

/// What a report says is what its fields hold, each under its own name.
pub proof fn reports_say_what_they_hold(p: TrafficReportRequest)
    ensures
        p.report().id == p.report_id@,
        p.report().device == p.device_name@,
        p.report().download == p.download_delta,
        p.report().upload == p.upload_delta,
        p.report().node == p.current_node_ip@,
        p.report().domains == p.domain_deltas.map(),
        p.report().abnormal == p.abnormal_domain_deltas.map(),
        p.report().kind == p.report_kind@,
{
}

} // verus!
