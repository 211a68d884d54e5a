//! What a device has counted and not yet reported.

use crate::classify::{
    bytes_are_merged_by_domain, bytes_of, classified_fit, classified_grows_by, plus_classified,
    verdict_on, Classified, ClassifiedDomainDelta,
};
use crate::report::is_label;
use crate::text::{
    char_is_alphanumeric, char_is_whitespace, chars_of, decimal, decimal_text, digit_char,
    is_alphanumeric, is_blank, is_control, is_digit, is_whitespace, text_of, trim,
    written_numbers_read_back,
};
use crate::text_map::{
    count_of, counts_are_added_by_key, fits, grows_by, lemma_sum_plus, plus, stays_under, sum_fits,
    sums_fit, TextMap,
};
use crate::tracker::{consistent, empty_batch, Batch, ProxyDeltaBatch};
use vstd::prelude::*;
use vstd::string::StringExecFns;

verus! {

// ---------------------------------------------------------------------------
// Ids of reports
// ---------------------------------------------------------------------------

/// What makes a new id differ from others: the time in milliseconds since 1970 and the number of
/// the process.
#[derive(Clone, Copy, Debug)]
pub struct ReportStamp {
    pub millis: u128,
    pub process: u32,
}

/// What stands in an id for a character of the name of a device, if anything.
pub open spec fn id_char(c: char) -> Option<char> {
    if is_alphanumeric(c) || c == '-' || c == '_' || c == '.' {
        Some(c)
    } else if is_whitespace(c) {
        Some('-')
    } else {
        None
    }
}

/// What stands in an id for the name of a device, however long.
pub open spec fn id_chars(name: Seq<char>) -> Seq<char>
    decreases name.len(),
{
    if name.len() == 0 {
        Seq::empty()
    } else {
        match id_char(name.last()) {
            Some(c) => id_chars(name.drop_last()).push(c),
            None => id_chars(name.drop_last()),
        }
    }
}

/// What stands in an id for the name of a device: at most 32 characters, and never nothing.
pub open spec fn device_part(name: Seq<char>) -> Seq<char> {
    let all = id_chars(name);
    if all.len() == 0 {
        "device"@
    } else if all.len() > 32 {
        all.take(32)
    } else {
        all
    }
}

/// The id of a report.
pub open spec fn report_id_of(name: Seq<char>, stamp: ReportStamp) -> Seq<char> {
    device_part(name) + "-"@ + decimal(stamp.millis as nat) + "-"@ + decimal(stamp.process as nat)
}

/// A new id for a report of the given device.
pub fn generate_report_id(device_name: &str, stamp: ReportStamp) -> (r: String)
    ensures
        r@ == report_id_of(device_name@, stamp),
{
    let name = chars_of(device_name);
    let mut part: Vec<char> = Vec::new();
    for i in 0..name.len()
        invariant
            part@ == id_chars(name@.take(i as int)),
    {
        let c = name[i];
        proof {
            let next = name@.take(i as int + 1);
            assert(next.drop_last() =~= name@.take(i as int));
            assert(next.last() == c);
        }
        if char_is_alphanumeric(c) || c == '-' || c == '_' || c == '.' {
            part.push(c);
        } else if char_is_whitespace(c) {
            part.push('-');
        }
    }
    assert(name@.take(name@.len() as int) =~= name@);
    if part.len() > 32 {
        let ghost all = part@;
        part.truncate(32);
        assert(part@ =~= all.take(32));
    }
    let head = if part.len() == 0 {
        "device".to_owned()
    } else {
        text_of(part.as_slice())
    };
    let millis = decimal_text(stamp.millis);
    let process = decimal_text(stamp.process as u128);
    head.concat("-").concat(millis.as_str()).concat("-").concat(process.as_str())
}

/// The characters that ids are made of.
pub open spec fn is_id_char(c: char) -> bool {
    is_alphanumeric(c) || c == '-' || c == '_' || c == '.'
}

pub open spec fn all_id_chars(s: Seq<char>) -> bool {
    forall|i: int| 0 <= i < s.len() ==> is_id_char(#[trigger] s[i])
}

proof fn lemma_id_chars(name: Seq<char>)
    ensures
        all_id_chars(id_chars(name)),
    decreases name.len(),
{
    if name.len() > 0 {
        lemma_id_chars(name.drop_last());
    }
}

spec fn pow10(k: nat) -> nat
    decreases k,
{
    if k == 0 {
        1
    } else {
        10 * pow10((k - 1) as nat)
    }
}

proof fn lemma_decimal(n: nat, k: nat)
    requires
        n < pow10(k),
        k >= 1,
    ensures
        1 <= decimal(n).len() <= k,
        all_id_chars(decimal(n)),
    decreases k,
{
    assert(is_digit(digit_char((n % 10) as int)));
    if n >= 10 {
        assert(pow10(1) == 10) by {
            reveal_with_fuel(pow10, 2);
        }
        assert(k > 1);
        lemma_decimal(n / 10, (k - 1) as nat);
    }
}

proof fn lemma_trim_whole(s: Seq<char>)
    requires
        s.len() > 0,
        all_id_chars(s),
    ensures
        trim(s) == s,
{
    assert(is_id_char(s[0]));
    assert(is_id_char(s[s.len() - 1]));
}

/// Every new id is one that the server accepts: not blank, short, without control characters.
pub proof fn new_ids_are_acceptable(name: Seq<char>, stamp: ReportStamp)
    ensures
        is_label(report_id_of(name, stamp), 128),
        all_id_chars(report_id_of(name, stamp)),
        report_id_of(name, stamp).len() <= 83,
{
    let id = report_id_of(name, stamp);
    let head = device_part(name);
    lemma_id_chars(name);
    reveal_strlit("device");
    reveal_strlit("-");
    assert(head.len() <= 32 && all_id_chars(head));
    assert(stamp.millis < pow10(39)) by {
        reveal_with_fuel(pow10, 40);
    }
    assert(stamp.process < pow10(10)) by {
        reveal_with_fuel(pow10, 11);
    }
    lemma_decimal(stamp.millis as nat, 39);
    lemma_decimal(stamp.process as nat, 10);
    let a = decimal(stamp.millis as nat);
    let b = decimal(stamp.process as nat);
    assert(all_id_chars("-"@));
    assert(id.len() == head.len() + 1 + a.len() + 1 + b.len());
    assert forall|i: int| 0 <= i < id.len() implies is_id_char(#[trigger] id[i]) by {
        let n1 = head.len();
        let n2 = n1 + 1;
        let n3 = n2 + a.len();
        let n4 = n3 + 1;
        if i < n1 {
            assert(id[i] == head[i]);
        } else if i < n2 {
            assert(id[i] == "-"@[i - n1]);
        } else if i < n3 {
            assert(id[i] == a[i - n2]);
        } else if i < n4 {
            assert(id[i] == "-"@[i - n3]);
        } else {
            assert(id[i] == b[i - n4]);
        }
    }
    lemma_trim_whole(id);
    assert(vstd::utf8::is_ascii_chars(id));
    vstd::utf8::is_ascii_chars_encode_utf8(id);
    assert forall|i: int| 0 <= i < id.len() implies !is_control(#[trigger] id[i]) by {
        assert(is_id_char(id[i]));
    }
}

// ---------------------------------------------------------------------------
// What is not yet reported
// ---------------------------------------------------------------------------

/// What a device has counted since its last report that went through.
pub struct PendingTrafficReport {
    pub report_id: String,
    pub download_delta: i64,
    pub upload_delta: i64,
    pub domain_deltas: TextMap<i64>,
    pub abnormal_domain_deltas: TextMap<ClassifiedDomainDelta>,
}

impl Default for PendingTrafficReport {
    fn default() -> (r: Self)
        ensures
            r.report_id@ == Seq::<char>::empty(),
            r.batch() == empty_batch(),
    {
        PendingTrafficReport {
            report_id: String::new(),
            download_delta: 0,
            upload_delta: 0,
            domain_deltas: TextMap::new(),
            abnormal_domain_deltas: TextMap::new(),
        }
    }
}

/// The sum of two batches; the classifications of the second one stand.
pub open spec fn batch_plus(a: Batch, b: Batch) -> Batch {
    Batch {
        download: a.download + b.download,
        upload: a.upload + b.upload,
        domains: plus(a.domains, b.domains),
        abnormal: plus_classified(a.abnormal, b.abnormal),
    }
}

/// Every number in the sum of two batches is an `i64`.
pub open spec fn batches_fit(a: Batch, b: Batch) -> bool {
    &&& fits(a.download + b.download)
    &&& fits(a.upload + b.upload)
    &&& sums_fit(a.domains, b.domains)
    &&& classified_fit(a.abnormal, b.abnormal)
}

/// The id, or a new one where it is blank.
pub open spec fn id_or_new(id: Seq<char>, name: Seq<char>, stamp: ReportStamp) -> Seq<char> {
    if trim(id).len() == 0 {
        report_id_of(name, stamp)
    } else {
        id
    }
}

impl PendingTrafficReport {
    /// What was counted.
    pub open spec fn batch(self) -> Batch {
        Batch {
            download: self.download_delta as int,
            upload: self.upload_delta as int,
            domains: self.domain_deltas.map(),
            abnormal: self.abnormal_domain_deltas.map(),
        }
    }

    /// The bytes in both directions.
    pub fn total_bytes(&self) -> (r: i64)
        requires
            fits(self.download_delta + self.upload_delta),
        ensures
            r == self.download_delta + self.upload_delta,
    {
        self.download_delta + self.upload_delta
    }

    /// Whether nothing was counted.
    pub fn is_empty(&self) -> (r: bool)
        ensures
            r == (self.batch() == empty_batch()),
    {
        let r = self.download_delta == 0 && self.upload_delta == 0 && self.domain_deltas.is_empty()
            && self.abnormal_domain_deltas.is_empty();
        assert(r == (self.batch() =~= empty_batch()));
        r
    }

    /// Gives the report an id, unless it has one.
    pub fn ensure_report_id(&mut self, device_name: &str, stamp: ReportStamp) -> (r: String)
        ensures
            r@ == id_or_new(old(self).report_id@, device_name@, stamp),
            final(self).report_id@ == r@,
            final(self).batch() == old(self).batch(),
    {
        if is_blank(self.report_id.as_str()) {
            self.report_id = generate_report_id(device_name, stamp);
        }
        self.report_id.clone()
    }

    /// Whether every number in the sum with a batch is an `i64`.
    pub fn takes_batch(&self, batch: &ProxyDeltaBatch) -> (r: bool)
        ensures
            r == batches_fit(self.batch(), batch.batch()),
    {
        sum_fits(self.download_delta, batch.download_delta) && sum_fits(
            self.upload_delta,
            batch.upload_delta,
        ) && self.domain_deltas.sums_fit(&batch.domain_deltas)
            && self.abnormal_domain_deltas.classified_fit(&batch.abnormal_domain_deltas)
    }

    /// Adds a batch, and gives the report an id, unless it has one.
    pub fn merge_batch(&mut self, batch: ProxyDeltaBatch, device_name: &str, stamp: ReportStamp)
        requires
            batches_fit(old(self).batch(), batch.batch()),
        ensures
            final(self).report_id@ == id_or_new(old(self).report_id@, device_name@, stamp),
            final(self).batch() == batch_plus(old(self).batch(), batch.batch()),
    {
        let id = self.ensure_report_id(device_name, stamp);
        self.download_delta = self.download_delta + batch.download_delta;
        self.upload_delta = self.upload_delta + batch.upload_delta;
        self.domain_deltas.add_counts(&batch.domain_deltas);
        self.abnormal_domain_deltas.add_classified(&batch.abnormal_domain_deltas);
    }
}

/// A report keeps its id once it has one: merging gives an id that is not blank, and merging again
/// keeps that id whatever the stamp.
pub proof fn id_stays_across_merges(
    id: Seq<char>,
    name: Seq<char>,
    stamp: ReportStamp,
    later_name: Seq<char>,
    later: ReportStamp,
)
    ensures
        ({
            let first = id_or_new(id, name, stamp);
            trim(first).len() > 0 && id_or_new(first, later_name, later) == first
        }),
{
    new_ids_are_acceptable(name, stamp);
}

/// Sums of consistent batches are consistent: what is pending always adds up.
pub proof fn merged_batches_are_consistent(a: Batch, b: Batch, suffixes: Seq<Seq<char>>)
    requires
        consistent(a, suffixes),
        consistent(b, suffixes),
    ensures
        consistent(batch_plus(a, b), suffixes),
{
    let c = batch_plus(a, b);
    lemma_sum_plus(a.domains, b.domains);
    assert forall|h: Seq<char>| #[trigger] c.domains.contains_key(h) implies c.domains[h] > 0 by {
        assert(a.domains.contains_key(h) || b.domains.contains_key(h));
        if a.domains.contains_key(h) {
            assert(a.domains[h] > 0);
        }
        if b.domains.contains_key(h) {
            assert(b.domains[h] > 0);
        }
    }
    assert forall|h: Seq<char>| #[trigger]
        c.abnormal.contains_key(h) <==> c.domains.contains_key(h) && !verdict_on(
            h,
            suffixes,
        ).should_proxy by {
        assert(a.abnormal.contains_key(h) <==> a.domains.contains_key(h) && !verdict_on(
            h,
            suffixes,
        ).should_proxy);
        assert(b.abnormal.contains_key(h) <==> b.domains.contains_key(h) && !verdict_on(
            h,
            suffixes,
        ).should_proxy);
    }
    assert forall|h: Seq<char>| #[trigger] c.abnormal.contains_key(h) implies c.abnormal[h] == (
    Classified { bytes: c.domains[h], verdict: verdict_on(h, suffixes) }) by {
        assert(a.abnormal.contains_key(h) || b.abnormal.contains_key(h));
        assert(a.abnormal.contains_key(h) <==> a.domains.contains_key(h) && !verdict_on(
            h,
            suffixes,
        ).should_proxy);
        assert(b.abnormal.contains_key(h) <==> b.domains.contains_key(h) && !verdict_on(
            h,
            suffixes,
        ).should_proxy);
        if a.abnormal.contains_key(h) {
            assert(a.abnormal[h].bytes == a.domains[h]);
        }
        if b.abnormal.contains_key(h) {
            assert(b.abnormal[h].bytes == b.domains[h]);
        }
    }
}

// ---------------------------------------------------------------------------
// What ids and sums are made of
// ---------------------------------------------------------------------------

/// In an id letters, digits, hyphens, underscores and points of the name stay, white space becomes a
/// hyphen, and every other character is left out; all in the order of the name.
pub proof fn names_are_spelled_in_ids(name: Seq<char>, c: char)
    ensures
        id_chars(Seq::empty()).len() == 0,
        is_alphanumeric(c) || c == '-' || c == '_' || c == '.' ==> id_chars(name.push(c))
            == id_chars(name).push(c),
        is_whitespace(c) ==> id_chars(name.push(c)) == id_chars(name).push('-'),
        !is_alphanumeric(c) && c != '-' && c != '_' && c != '.' && !is_whitespace(c) ==> id_chars(
            name.push(c),
        ) == id_chars(name),
{
    assert(name.push(c).drop_last() =~= name);
}

/// Of the name of a device the first 32 characters stand in an id; a name of which nothing can stand
/// there is replaced.
pub proof fn names_are_cut_in_ids(name: Seq<char>)
    ensures
        1 <= id_chars(name).len() <= 32 ==> device_part(name) == id_chars(name),
        id_chars(name).len() > 32 ==> device_part(name).len() == 32 && device_part(name)
            == id_chars(name).take(32),
        id_chars(name).len() == 0 ==> device_part(name) == "device"@,
{
}

/// Ids that were made at different times, or by different processes, differ.
#[verifier::spinoff_prover]
#[verifier::rlimit(40)]
pub proof fn different_stamps_give_different_ids(name: Seq<char>, a: ReportStamp, b: ReportStamp)
    requires
        report_id_of(name, a) == report_id_of(name, b),
    ensures
        a.millis == b.millis,
        a.process == b.process,
{
    reveal_strlit("-");
    let head = device_part(name) + "-"@;
    let n = head.len() as int;
    let am = decimal(a.millis as nat);
    let bm = decimal(b.millis as nat);
    let ap = decimal(a.process as nat);
    let bp = decimal(b.process as nat);
    let x = am + "-"@ + ap;
    let y = bm + "-"@ + bp;
    assert(report_id_of(name, a) =~= head + x);
    assert(report_id_of(name, b) =~= head + y);
    assert(x =~= (head + x).skip(n));
    assert(y =~= (head + y).skip(n));
    assert(x == y);
    written_numbers_read_back(a.millis as nat);
    written_numbers_read_back(b.millis as nat);
    written_numbers_read_back(a.process as nat);
    written_numbers_read_back(b.process as nat);
    assert(x[am.len() as int] == '-');
    assert(y[bm.len() as int] == '-');
    if am.len() < bm.len() {
        assert(y[am.len() as int] == bm[am.len() as int]);
        assert(is_digit(bm[am.len() as int]));
    }
    if bm.len() < am.len() {
        assert(x[bm.len() as int] == am[bm.len() as int]);
        assert(is_digit(am[bm.len() as int]));
    }
    assert(am =~= x.take(am.len() as int));
    assert(bm =~= y.take(bm.len() as int));
    assert(ap =~= x.skip(am.len() as int + 1));
    assert(bp =~= y.skip(bm.len() as int + 1));
}

/// A report that has an id keeps it; only one whose id is blank gets a new one.
pub proof fn only_blank_ids_are_replaced(id: Seq<char>, name: Seq<char>, stamp: ReportStamp)
    ensures
        trim(id).len() > 0 ==> id_or_new(id, name, stamp) == id,
        trim(id).len() == 0 ==> id_or_new(id, name, stamp) == report_id_of(name, stamp),
        report_id_of(name, stamp) == device_part(name) + "-"@ + decimal(stamp.millis as nat) + "-"@
            + decimal(stamp.process as nat),
{
}

/// What is pending grows by the batch that is merged: the download by its download, the upload by its
/// upload, and each domain by the bytes that the batch has of it.
pub proof fn pending_grows_by_the_batch(a: Batch, b: Batch, k: Seq<char>)
    ensures
        ({
            let all = batch_plus(a, b);
            &&& all.download == a.download + b.download
            &&& all.upload == a.upload + b.upload
            &&& b.domains.contains_key(k) ==> grows_by(a.domains, all.domains, k, b.domains[k])
            &&& !b.domains.contains_key(k) ==> stays_under(a.domains, all.domains, k)
            &&& b.abnormal.contains_key(k) ==> classified_grows_by(
                a.abnormal,
                all.abnormal,
                k,
                b.abnormal[k],
            )
            &&& !b.abnormal.contains_key(k) ==> stays_under(a.abnormal, all.abnormal, k)
        }),
{
    counts_are_added_by_key(a.domains, b.domains, k);
    bytes_are_merged_by_domain(a.abnormal, b.abnormal, k);
}

/// A batch can be merged exactly where every sum that it changes is an `i64`.
pub proof fn batches_fit_where_their_sums_do(a: Batch, b: Batch)
    ensures
        batches_fit(a, b) <==> {
            let all = batch_plus(a, b);
            &&& fits(all.download)
            &&& fits(all.upload)
            &&& forall|k: Seq<char>| #[trigger] b.domains.contains_key(k) ==> fits(all.domains[k])
            &&& forall|k: Seq<char>| #[trigger]
                b.abnormal.contains_key(k) ==> fits(all.abnormal[k].bytes)
        },
{
    let all = batch_plus(a, b);
    assert forall|k: Seq<char>| #[trigger] b.domains.contains_key(k) implies all.domains[k]
        == count_of(a.domains, k) + b.domains[k] by {}
    assert forall|k: Seq<char>| #[trigger] b.abnormal.contains_key(k) implies all.abnormal[k].bytes
        == bytes_of(a.abnormal, k) + b.abnormal[k].bytes by {}
}

/// What is pending is what the fields hold, each under its own name.
pub proof fn pending_reports_say_what_they_hold(p: PendingTrafficReport)
    ensures
        p.batch().download == p.download_delta,
        p.batch().upload == p.upload_delta,
        p.batch().domains == p.domain_deltas.map(),
        p.batch().abnormal == p.abnormal_domain_deltas.map(),
{
}

} // verus!
