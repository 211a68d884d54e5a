//! The access logs of the servers: the records of traffic that should have gone direct, and what
//! is shown of those of all servers together.

use crate::classify::{classify_proxy_domain_with_suffixes, verdict_on, Verdict};
use crate::foreign::{json_counts_in, pairs_of, parse_json_counts};
use crate::hosts::{normalize_traffic_target, traffic_target};
use crate::order::{
    first_in_order, is_ordered, origins, rank_views, top, top_takes_the_first, Ranked,
};
use crate::pattern::{compile, groups_of, regex_groups_in, Pattern};
use crate::text::{
    begins_with_text, char_views, chars_of, comes_before, drop_leading, drop_trailing, is_blank,
    lemma_text_before_irreflexive, lemma_text_before_total, lemma_text_before_transitive, lines,
    lines_of, opt_view, part, same_chars, same_text, starts_with, text_before, text_of, trim, views,
    without_leading, without_trailing, words, words_of, CharSet,
};
use crate::text_map::{
    count_of, counts_are_added_by_key, fits, grows_by, lemma_map_of, lemma_sum_insert, map_of,
    map_sum, plus, stays_under, sums_fit, Model, TextMap,
};
use vstd::prelude::*;
use vstd::string::StringExecFns;

verus! {

// ---------------------------------------------------------------------------
// Records
// ---------------------------------------------------------------------------

/// A record of the access log, or several of them together.
#[derive(Debug)]
pub struct LogRecord {
    pub time: String,
    pub source: String,
    pub action: String,
    pub target: String,
    pub strategy: String,
    pub count: usize,
    pub should_proxy: bool,
    pub category: String,
    pub reason: String,
}

/// How many records a record stands for where it does not say so.
pub fn default_count() -> (r: usize)
    ensures
        r == 1,
{
    1
}

/// Whether the target of a record should go through the proxy where it does not say so.
pub fn default_should_proxy() -> (r: bool)
    ensures
        r,
{
    true
}

/// What a record says.
#[verifier::ext_equal]
pub struct Record {
    pub time: Seq<char>,
    pub source: Seq<char>,
    pub action: Seq<char>,
    pub target: Seq<char>,
    pub strategy: Seq<char>,
    pub count: int,
    pub verdict: Verdict,
}

impl Model for LogRecord {
    type M = Record;

    open spec fn model(&self) -> Record {
        Record {
            time: self.time@,
            source: self.source@,
            action: self.action@,
            target: self.target@,
            strategy: self.strategy@,
            count: self.count as int,
            verdict: Verdict {
                should_proxy: self.should_proxy,
                category: self.category@,
                reason: self.reason@,
            },
        }
    }

    fn duplicate(&self) -> (r: LogRecord) {
        LogRecord {
            time: self.time.clone(),
            source: self.source.clone(),
            action: self.action.clone(),
            target: self.target.clone(),
            strategy: self.strategy.clone(),
            count: self.count,
            should_proxy: self.should_proxy,
            category: self.category.clone(),
            reason: self.reason.clone(),
        }
    }
}

pub open spec fn records_of(s: Seq<LogRecord>) -> Seq<Record> {
    s.map_values(|r: LogRecord| r.model())
}

/// A record of one access, if it was accepted and its target should have gone direct.
pub open spec fn direct_record(
    time: Seq<char>,
    source: Seq<char>,
    action: Seq<char>,
    target: Seq<char>,
    strategy: Seq<char>,
    suffixes: Seq<Seq<char>>,
) -> Option<Record> {
    let verdict = verdict_on(target, suffixes);
    if action != "accepted"@ || verdict.should_proxy {
        None
    } else {
        Some(Record { time, source, action, target, strategy, count: 1, verdict })
    }
}

pub open spec fn opt_record(r: Option<LogRecord>) -> Option<Record> {
    match r {
        Some(l) => Some(l.model()),
        None => None,
    }
}

fn make_record(
    time: String,
    source: String,
    action: String,
    target: String,
    strategy: String,
    direct_suffixes: &Vec<String>,
) -> (r: Option<LogRecord>)
    ensures
        opt_record(r) == direct_record(
            time@,
            source@,
            action@,
            target@,
            strategy@,
            views(direct_suffixes@),
        ),
{
    if !same_text(action.as_str(), "accepted") {
        return None;
    }
    let c = classify_proxy_domain_with_suffixes(target.as_str(), direct_suffixes);
    if c.should_proxy {
        return None;
    }
    Some(
        LogRecord {
            time,
            source,
            action,
            target,
            strategy,
            count: 1,
            should_proxy: c.should_proxy,
            category: c.category,
            reason: c.reason,
        },
    )
}

/// The group `i` of a match, empty where it took no part.
pub open spec fn group_or_empty(g: Seq<Option<Seq<char>>>, i: int) -> Seq<char> {
    if i < g.len() {
        match g[i] {
            Some(s) => s,
            None => Seq::empty(),
        }
    } else {
        Seq::empty()
    }
}

/// The record of a line in the usual form, by its parts: time, source, action, network, target
/// and strategy. A line of an access that was rejected gives none.
pub open spec fn record_in_groups(
    g: Seq<Option<Seq<char>>>,
    suffixes: Seq<Seq<char>>,
) -> Option<Record> {
    direct_record(
        group_or_empty(g, 1),
        group_or_empty(g, 2),
        group_or_empty(g, 3),
        group_or_empty(g, 5),
        group_or_empty(g, 6),
        suffixes,
    )
}

fn group_text(g: &Vec<Option<String>>, i: usize) -> (r: String)
    ensures
        r@ == group_or_empty(g@.map_values(|s: Option<String>| opt_view(s)), i as int),
{
    if i < g.len() {
        match &g[i] {
            Some(s) => s.clone(),
            None => String::new(),
        }
    } else {
        String::new()
    }
}

/// The record of a line in the usual form, by its parts.
pub fn record_from_groups(groups: &Vec<Option<String>>, direct_suffixes: &Vec<String>) -> (r:
    Option<LogRecord>)
    ensures
        opt_record(r) == record_in_groups(
            groups@.map_values(|s: Option<String>| opt_view(s)),
            views(direct_suffixes@),
        ),
{
    make_record(
        group_text(groups, 1),
        group_text(groups, 2),
        group_text(groups, 3),
        group_text(groups, 5),
        group_text(groups, 6),
        direct_suffixes,
    )
}

/// A word that gives a target: `tcp:` or `udp:` and what follows.
pub open spec fn gives_target(word: Seq<char>) -> bool {
    starts_with(word, "tcp:"@) || starts_with(word, "udp:"@)
}

/// A word in square brackets gives a strategy.
pub open spec fn gives_strategy(word: Seq<char>) -> bool {
    word.len() > 0 && word[0] == '[' && word.last() == ']'
}

/// The last target that the words give, empty where they give none.
pub open spec fn target_in(ws: Seq<Seq<char>>) -> Seq<char>
    decreases ws.len(),
{
    if ws.len() == 0 {
        Seq::empty()
    } else if gives_target(ws.last()) {
        ws.last().skip(4)
    } else {
        target_in(ws.drop_last())
    }
}

/// The last strategy that the words give, without its brackets; empty where they give none.
pub open spec fn strategy_in(ws: Seq<Seq<char>>) -> Seq<char>
    decreases ws.len(),
{
    let brackets = CharSet::Either('[', ']');
    if ws.len() == 0 {
        Seq::empty()
    } else if gives_strategy(ws.last()) {
        drop_trailing(drop_leading(ws.last(), brackets), brackets)
    } else {
        strategy_in(ws.drop_last())
    }
}

/// The record of a line by its words, where there are at least six, the fourth one says that the
/// access was accepted, and one gives a target.
pub open spec fn record_in_words(ws: Seq<Seq<char>>, suffixes: Seq<Seq<char>>) -> Option<Record> {
    if ws.len() >= 6 && target_in(ws).len() > 0 {
        direct_record(
            ws[0] + " "@ + ws[1],
            ws[2],
            ws[3],
            target_in(ws),
            strategy_in(ws),
            suffixes,
        )
    } else {
        None
    }
}

/// The record of a line by its words.
pub fn record_from_words(line: &[char], direct_suffixes: &Vec<String>) -> (r: Option<LogRecord>)
    ensures
        opt_record(r) == record_in_words(words(line@), views(direct_suffixes@)),
{
    let parts = words_of(line);
    let ghost ws = words(line@);
    if parts.len() < 6 {
        return None;
    }
    let brackets = CharSet::Either('[', ']');
    let mut target = String::new();
    let mut strategy = String::new();
    assert(ws.take(0) =~= Seq::<Seq<char>>::empty());
    for i in 0..parts.len()
        invariant
            ws == char_views(parts@),
            brackets == CharSet::Either('[', ']'),
            target@ == target_in(ws.take(i as int)),
            strategy@ == strategy_in(ws.take(i as int)),
    {
        let word = parts[i].as_slice();
        proof {
            let next = ws.take(i as int + 1);
            assert(next.drop_last() =~= ws.take(i as int));
            assert(next.last() == word@);
            reveal_strlit("tcp:");
            reveal_strlit("udp:");
        }
        if begins_with_text(word, "tcp:") || begins_with_text(word, "udp:") {
            assert(word@.subrange(4, word@.len() as int) =~= word@.skip(4));
            target = text_of(part(word, 4, word.len()));
        }
        if word.len() > 0 && word[0] == '[' && word[word.len() - 1] == ']' {
            strategy = text_of(without_trailing(without_leading(word, brackets), brackets));
        }
    }
    proof {
        assert(ws.take(ws.len() as int) =~= ws);
        assert(ws[0] == parts@[0]@ && ws[1] == parts@[1]@ && ws[2] == parts@[2]@ && ws[3]
            == parts@[3]@);
    }
    if target.as_str().is_empty() {
        return None;
    }
    let day = text_of(parts[0].as_slice());
    let clock = text_of(parts[1].as_slice());
    make_record(
        day.concat(" ").concat(clock.as_str()),
        text_of(parts[2].as_slice()),
        text_of(parts[3].as_slice()),
        target,
        strategy,
        direct_suffixes,
    )
}

/// The form of a usual line of the log.
pub open spec fn line_form() -> Seq<char> {
    r"^([\d/]+\s+[\d:]+)\s+([\d\.:]+)\s+(accepted|rejected|rejected\s+again)\s+(tcp|udp):([\w\.\-]+:\d+)\s+\[([\w\-]+)\]"@
}

/// The record of a line: by its parts where it has the usual form, else by its words.
pub open spec fn record_in_line(line: Seq<char>, suffixes: Seq<Seq<char>>) -> Option<Record> {
    match regex_groups_in(line_form(), line) {
        Some(g) => record_in_groups(g, suffixes),
        None => record_in_words(words(line), suffixes),
    }
}

/// Reads lines of the log.
pub struct LineReader {
    form: Pattern,
}

impl LineReader {
    #[verifier::type_invariant]
    spec fn inv(self) -> bool {
        self.form@ == line_form()
    }

    /// The form that lines are held against.
    pub closed spec fn form(self) -> Seq<char> {
        self.form@
    }

    pub fn new() -> (r: LineReader)
        ensures
            r.form() == line_form(),
    {
        LineReader {
            form: compile(
                r"^([\d/]+\s+[\d:]+)\s+([\d\.:]+)\s+(accepted|rejected|rejected\s+again)\s+(tcp|udp):([\w\.\-]+:\d+)\s+\[([\w\-]+)\]",
            ),
        }
    }

    /// The record of a line of the log, if it is that of an access that was accepted and should
    /// have gone direct.
    pub fn read(&self, line: &str, direct_suffixes: &Vec<String>) -> (r: Option<LogRecord>)
        ensures
            opt_record(r) == record_in_line(line@, views(direct_suffixes@)),
    {
        proof {
            use_type_invariant(self);
        }
        match groups_of(&self.form, line) {
            Some(g) => record_from_groups(&g, direct_suffixes),
            None => {
                let v = chars_of(line);
                record_from_words(v.as_slice(), direct_suffixes)
            },
        }
    }
}

/// The record of a line of the log, if it is that of an access that was accepted and should have
/// gone direct.
pub fn parse_log_line(line: &str, direct_suffixes: &Vec<String>) -> (r: Option<LogRecord>)
    ensures
        opt_record(r) == record_in_line(line@, views(direct_suffixes@)),
{
    LineReader::new().read(line, direct_suffixes)
}

// ---------------------------------------------------------------------------
// What a server answers
// ---------------------------------------------------------------------------

/// The line after which the counts of a server stand.
pub open spec fn is_mark(line: Seq<char>) -> bool {
    line == "===TRAFFIC_JSON==="@
}

/// What was read of an answer: whether the mark has come, the lines before it, and the text after
/// it, in which every line ends in a line feed.
#[verifier::ext_equal]
pub struct Answer {
    pub marked: bool,
    pub log: Seq<Seq<char>>,
    pub counts: Seq<char>,
}

/// After one more line.
pub open spec fn after_line(a: Answer, line: Seq<char>) -> Answer {
    if is_mark(line) {
        Answer { marked: true, ..a }
    } else if a.marked {
        Answer { counts: a.counts + line + "\n"@, ..a }
    } else {
        Answer { log: a.log.push(line), ..a }
    }
}

/// The answer that the lines make up.
pub open spec fn answer_in(ls: Seq<Seq<char>>) -> Answer
    decreases ls.len(),
{
    if ls.len() == 0 {
        Answer { marked: false, log: Seq::empty(), counts: Seq::empty() }
    } else {
        after_line(answer_in(ls.drop_last()), ls.last())
    }
}

/// The records of the lines of a log, in their order.
pub open spec fn records_in(ls: Seq<Seq<char>>, suffixes: Seq<Seq<char>>) -> Seq<Record>
    decreases ls.len(),
{
    if ls.len() == 0 {
        Seq::empty()
    } else {
        let before = records_in(ls.drop_last(), suffixes);
        match record_in_line(ls.last(), suffixes) {
            Some(r) => before.push(r),
            None => before,
        }
    }
}

/// Every record that is read from a log is that of one access that was accepted and should have
/// gone direct.
pub proof fn only_accepted_lines_give_records(
    ls: Seq<Seq<char>>,
    suffixes: Seq<Seq<char>>,
    i: int,
)
    requires
        0 <= i < records_in(ls, suffixes).len(),
    ensures
        ({
            let r = records_in(ls, suffixes)[i];
            &&& r.action == "accepted"@
            &&& r.count == 1
            &&& !r.verdict.should_proxy && r.verdict == verdict_on(r.target, suffixes)
        }),
    decreases ls.len(),
{
    if ls.len() > 0 {
        let before = records_in(ls.drop_last(), suffixes);
        if i < before.len() {
            only_accepted_lines_give_records(ls.drop_last(), suffixes, i);
        }
    }
}

/// The records in the log of an answer, and the text of its counts.
pub struct VpsAnswer {
    pub records: Vec<LogRecord>,
    pub counts_text: String,
}

/// Reads an answer.
pub fn read_answer(stdout: &str, direct_suffixes: &Vec<String>) -> (r: VpsAnswer)
    ensures
        ({
            let a = answer_in(lines(stdout@));
            &&& records_of(r.records@) == records_in(a.log, views(direct_suffixes@))
            &&& r.counts_text@ == a.counts
        }),
{
    let v = chars_of(stdout);
    let list = lines_of(v.as_slice());
    let ghost ls = lines(stdout@);
    let ghost suffixes = views(direct_suffixes@);
    let reader = LineReader::new();
    let mark = chars_of("===TRAFFIC_JSON===");
    let mut marked = false;
    let mut records: Vec<LogRecord> = Vec::new();
    let mut counts = String::new();
    proof {
        assert(ls.take(0) =~= Seq::<Seq<char>>::empty());
        assert(records_of(records@) =~= Seq::<Record>::empty());
    }
    for i in 0..list.len()
        invariant
            ls == char_views(list@),
            suffixes == views(direct_suffixes@),
            mark@ == "===TRAFFIC_JSON==="@,
            marked == answer_in(ls.take(i as int)).marked,
            records_of(records@) == records_in(answer_in(ls.take(i as int)).log, suffixes),
            counts@ == answer_in(ls.take(i as int)).counts,
    {
        let line = list[i].as_slice();
        let ghost a = answer_in(ls.take(i as int));
        proof {
            let next = ls.take(i as int + 1);
            assert(next.drop_last() =~= ls.take(i as int));
            assert(next.last() == line@);
        }
        if same_chars(line, mark.as_slice()) {
            marked = true;
        } else if marked {
            let text = text_of(line);
            counts = counts.concat(text.as_str()).concat("\n");
        } else {
            let text = text_of(line);
            let ghost before = records@;
            assert(a.log.push(line@).drop_last() =~= a.log);
            if let Some(record) = reader.read(text.as_str(), direct_suffixes) {
                let ghost model = record.model();
                records.push(record);
                assert(records_of(records@) =~= records_of(before).push(model));
            }
        }
    }
    assert(ls.take(ls.len() as int) =~= ls);
    VpsAnswer { records, counts_text: counts }
}

/// The bytes and the requests of a server by domain.
pub struct VpsTrafficData {
    pub traffic: TextMap<i64>,
    pub requests: TextMap<i64>,
}

/// What the counts of a server say: bytes, requests.
#[verifier::ext_equal]
pub struct VpsCounts {
    pub traffic: Map<Seq<char>, int>,
    pub requests: Map<Seq<char>, int>,
}

impl VpsTrafficData {
    pub open spec fn counts(self) -> VpsCounts {
        VpsCounts { traffic: self.traffic.map(), requests: self.requests.map() }
    }
}

/// The counts in a text: those read from it as bytes and requests, if it has both; else those of
/// an older form, `old_form`, which has bytes alone; none where it has neither or is blank.
pub open spec fn counts_from(
    text: Seq<char>,
    both: Option<VpsCounts>,
    old_form: Option<Map<Seq<char>, int>>,
) -> VpsCounts {
    let nothing = VpsCounts { traffic: Map::empty(), requests: Map::empty() };
    if trim(text).len() == 0 {
        nothing
    } else {
        match both {
            Some(c) => c,
            None => match old_form {
                Some(m) => VpsCounts { traffic: m, requests: Map::empty() },
                None => nothing,
            },
        }
    }
}

pub open spec fn opt_counts(c: Option<VpsTrafficData>) -> Option<VpsCounts> {
    match c {
        Some(d) => Some(d.counts()),
        None => None,
    }
}

/// A map with the given entries, each name once.
fn map_from_pairs(pairs: Vec<(String, i64)>, Ghost(m): Ghost<Map<Seq<char>, int>>) -> (r: TextMap<
    i64,
>)
    requires
        pairs_of(pairs@, m),
    ensures
        r.map() == m,
{
    let mut out: TextMap<i64> = TextMap::new();
    for i in 0..pairs.len()
        invariant
            pairs_of(pairs@, m),
            forall|k: Seq<char>| #[trigger]
                out.map().contains_key(k) <==> exists|j: int|
                    0 <= j < i && (#[trigger] pairs@[j]).0@ == k,
            forall|j: int|
                0 <= j < i ==> out.map()[(#[trigger] pairs@[j]).0@] == pairs@[j].1,
    {
        let ghost before = out.map();
        let item = &pairs[i];
        out.insert(item.0.clone(), item.1);
        proof {
            assert forall|k: Seq<char>| #[trigger] out.map().contains_key(k) <==> exists|j: int|
                0 <= j < i + 1 && (#[trigger] pairs@[j]).0@ == k by {
                if out.map().contains_key(k) && k != item.0@ {
                    assert(before.contains_key(k));
                    let j = choose|j: int| 0 <= j < i && (#[trigger] pairs@[j]).0@ == k;
                    assert(pairs@[j].0@ == k);
                }
                if k == item.0@ {
                    assert(pairs@[i as int].0@ == k);
                }
                if exists|j: int| 0 <= j < i + 1 && (#[trigger] pairs@[j]).0@ == k {
                    let j = choose|j: int| 0 <= j < i + 1 && (#[trigger] pairs@[j]).0@ == k;
                    if j < i {
                        assert(before.contains_key(k));
                    }
                }
            }
        }
    }
    assert(out.map() =~= m) by {
        assert forall|k: Seq<char>| #[trigger] out.map().contains_key(k) <==> m.contains_key(k) by {
            if out.map().contains_key(k) {
                let j = choose|j: int| 0 <= j < pairs@.len() && (#[trigger] pairs@[j]).0@ == k;
                assert(m.contains_key(pairs@[j].0@));
            }
            if m.contains_key(k) {
                let j = choose|j: int| 0 <= j < pairs@.len() && (#[trigger] pairs@[j]).0@ == k;
                assert(pairs@[j].0@ == k);
            }
        }
        assert forall|k: Seq<char>| #[trigger] m.contains_key(k) implies out.map()[k] == m[k] by {
            let j = choose|j: int| 0 <= j < pairs@.len() && (#[trigger] pairs@[j]).0@ == k;
            assert(out.map()[pairs@[j].0@] == pairs@[j].1);
        }
    }
    out
}

/// The counts in a text, by what was read from it.
pub fn choose_counts(
    counts_text: &str,
    both: Option<VpsTrafficData>,
    old_form: Option<TextMap<i64>>,
) -> (r: VpsTrafficData)
    ensures
        r.counts() == counts_from(
            counts_text@,
            opt_counts(both),
            match old_form {
                Some(m) => Some(m.map()),
                None => None,
            },
        ),
{
    let nothing = VpsTrafficData { traffic: TextMap::new(), requests: TextMap::new() };
    if is_blank(counts_text) {
        return nothing;
    }
    match both {
        Some(d) => d,
        None => match old_form {
            Some(m) => VpsTrafficData { traffic: m, requests: TextMap::new() },
            None => nothing,
        },
    }
}

/// The counts in a text; `both` is what was read from it as bytes and requests, where it has both.
pub fn vps_counts(counts_text: &str, both: Option<VpsTrafficData>) -> (r: VpsTrafficData)
    ensures
        r.counts() == counts_from(
            counts_text@,
            opt_counts(both),
            json_counts_in(counts_text@),
        ),
{
    let old_form = match parse_json_counts(counts_text) {
        Some(pairs) => Some(map_from_pairs(pairs, Ghost(json_counts_in(counts_text@)->0))),
        None => None,
    };
    choose_counts(counts_text, both, old_form)
}

// ---------------------------------------------------------------------------
// All servers together
// ---------------------------------------------------------------------------

impl Ranked for LogRecord {
    type V = Record;

    open spec fn rank_view(&self) -> Record {
        self.model()
    }

    open spec fn first(a: Record, b: Record) -> bool {
        text_before(b.time, a.time)
    }

    proof fn first_is_transitive(a: Record, b: Record, c: Record) {
        lemma_text_before_transitive(c.time, b.time, a.time);
    }

    proof fn first_is_irreflexive(a: Record) {
        lemma_text_before_irreflexive(a.time);
    }

    fn goes_first(&self, other: &Self) -> (r: bool) {
        comes_before(other.time.as_str(), self.time.as_str())
    }
}

/// A domain with the number of its requests.
#[derive(Debug)]
pub struct TopDomain {
    pub domain: String,
    pub count: usize,
}

/// A domain with its bytes.
#[derive(Debug)]
pub struct DomainTraffic {
    pub domain: String,
    pub bytes: i64,
}

/// A domain with a number.
pub struct Ranking {
    pub domain: Seq<char>,
    pub number: int,
}

impl Ranked for TopDomain {
    type V = Ranking;

    open spec fn rank_view(&self) -> Ranking {
        Ranking { domain: self.domain@, number: self.count as int }
    }

    open spec fn first(a: Ranking, b: Ranking) -> bool {
        a.number > b.number
    }

    proof fn first_is_transitive(a: Ranking, b: Ranking, c: Ranking) {
    }

    proof fn first_is_irreflexive(a: Ranking) {
    }

    fn goes_first(&self, other: &Self) -> (r: bool) {
        self.count > other.count
    }
}

impl Ranked for DomainTraffic {
    type V = Ranking;

    open spec fn rank_view(&self) -> Ranking {
        Ranking { domain: self.domain@, number: self.bytes as int }
    }

    open spec fn first(a: Ranking, b: Ranking) -> bool {
        a.number > b.number
    }

    proof fn first_is_transitive(a: Ranking, b: Ranking, c: Ranking) {
    }

    proof fn first_is_irreflexive(a: Ranking) {
    }

    fn goes_first(&self, other: &Self) -> (r: bool) {
        self.bytes > other.bytes
    }
}

/// What is shown of the traffic that should have gone direct, and of the domains of all servers.
#[derive(Debug)]
pub struct AbnormalTrafficResponse {
    pub records: Vec<LogRecord>,
    pub top_domains: Vec<TopDomain>,
    pub domain_traffics: Vec<DomainTraffic>,
}

impl Default for AbnormalTrafficResponse {
    fn default() -> (r: Self)
        ensures
            r.records@.len() == 0,
            r.top_domains@.len() == 0,
            r.domain_traffics@.len() == 0,
    {
        AbnormalTrafficResponse {
            records: Vec::new(),
            top_domains: Vec::new(),
            domain_traffics: Vec::new(),
        }
    }
}

/// What was read from a server.
pub struct VpsData {
    pub records: Vec<LogRecord>,
    pub counts: VpsTrafficData,
}

/// The record that stands for no access.
pub open spec fn no_access() -> Record {
    Record {
        time: Seq::empty(),
        source: Seq::empty(),
        action: Seq::empty(),
        target: Seq::empty(),
        strategy: Seq::empty(),
        count: 0,
        verdict: Verdict { should_proxy: true, category: Seq::empty(), reason: Seq::empty() },
    }
}

/// The records by host after one more: it is counted, and the latest one stands. One without a
/// host is passed over.
pub open spec fn with_record(m: Map<Seq<char>, Record>, r: Record) -> Map<Seq<char>, Record> {
    let host = traffic_target(r.target);
    let there = if m.contains_key(host) {
        m[host]
    } else {
        no_access()
    };
    if host.len() == 0 {
        m
    } else if there.time.len() == 0 || text_before(there.time, r.time) {
        m.insert(host, (Record { count: there.count + 1, ..r }))
    } else {
        m.insert(host, (Record { count: there.count + 1, ..there }))
    }
}

/// The records by host.
pub open spec fn by_host(records: Seq<Record>) -> Map<Seq<char>, Record>
    decreases records.len(),
{
    if records.len() == 0 {
        Map::empty()
    } else {
        with_record(by_host(records.drop_last()), records.last())
    }
}

fn merge_records(records: &Vec<LogRecord>) -> (r: TextMap<LogRecord>)
    ensures
        r.map() == by_host(records_of(records@)),
{
    let ghost all = records_of(records@);
    let mut out: TextMap<LogRecord> = TextMap::new();
    assert(all.take(0) =~= Seq::<Record>::empty());
    for i in 0..records.len()
        invariant
            all == records_of(records@),
            out.map() == by_host(all.take(i as int)),
            forall|k: Seq<char>| #[trigger]
                out.map().contains_key(k) ==> 0 <= out.map()[k].count <= i,
    {
        let record = &records[i];
        proof {
            let next = all.take(i as int + 1);
            assert(next.drop_last() =~= all.take(i as int));
            assert(next.last() == record.model());
        }
        let host = normalize_traffic_target(record.target.as_str());
        if !host.as_str().is_empty() {
            let ghost before = out.map();
            let existing = out.entry(
                host.as_str(),
                LogRecord {
                    time: String::new(),
                    source: String::new(),
                    action: String::new(),
                    target: String::new(),
                    strategy: String::new(),
                    count: 0,
                    should_proxy: true,
                    category: String::new(),
                    reason: String::new(),
                },
            );
            let count: usize = existing.count + 1;
            if existing.time.as_str().is_empty() || comes_before(
                existing.time.as_str(),
                record.time.as_str(),
            ) {
                *existing = record.duplicate();
            }
            existing.count = count;
            assert(out.map() =~= with_record(before, all[i as int]));
        }
    }
    assert(all.take(all.len() as int) =~= all);
    out
}

/// All records of the servers that answered.
pub open spec fn all_records(results: Seq<Option<VpsData>>) -> Seq<Record>
    decreases results.len(),
{
    if results.len() == 0 {
        Seq::empty()
    } else {
        let before = all_records(results.drop_last());
        match results.last() {
            Some(d) => before + records_of(d.records@),
            None => before,
        }
    }
}

/// The bytes and requests of all servers that answered.
pub open spec fn all_counts(results: Seq<Option<VpsData>>) -> VpsCounts
    decreases results.len(),
{
    if results.len() == 0 {
        VpsCounts { traffic: Map::empty(), requests: Map::empty() }
    } else {
        let before = all_counts(results.drop_last());
        match results.last() {
            Some(d) => VpsCounts {
                traffic: plus(before.traffic, d.counts.traffic.map()),
                requests: plus(before.requests, d.counts.requests.map()),
            },
            None => before,
        }
    }
}

/// Every sum of the counts of the servers is an `i64`.
pub open spec fn counts_fit(results: Seq<Option<VpsData>>) -> bool {
    forall|n: int|
        0 <= n < results.len() ==> match results[n] {
            Some(d) => {
                let before = all_counts(#[trigger] results.take(n));
                sums_fit(before.traffic, d.counts.traffic.map()) && sums_fit(
                    before.requests,
                    d.counts.requests.map(),
                )
            },
            None => true,
        }
}

/// At least one server has answered.
pub open spec fn any_answer(results: Seq<Option<VpsData>>) -> bool {
    exists|i: int| 0 <= i < results.len() && (#[trigger] results[i]) is Some
}

/// The keys and values are those of the map, each key once.
pub open spec fn enumerates<M>(
    keys: Seq<Seq<char>>,
    values: Seq<M>,
    m: Map<Seq<char>, M>,
) -> bool {
    keys.no_duplicates() && keys.len() == values.len() && map_of(keys, values) == m
}

/// A domain with the number of its requests as an unsigned one.
pub open spec fn request_ranking(k: Seq<char>, v: int) -> Ranking {
    Ranking { domain: k, number: v as usize as int }
}

/// A domain with its bytes.
pub open spec fn byte_ranking(k: Seq<char>, v: int) -> Ranking {
    Ranking { domain: k, number: v }
}

/// The 20 latest records of the hosts; which of equally late ones stand first, and which are left
/// out, is open.
pub open spec fn shows_records(shown: Seq<Record>, m: Map<Seq<char>, Record>) -> bool {
    exists|keys: Seq<Seq<char>>, values: Seq<Record>| #[trigger]
        enumerates(keys, values, m) && shown == top::<LogRecord>(values, 20)
}

/// The ten domains with the most requests; which of equal ones stand first, and which are left
/// out, is open.
pub open spec fn shows_requests(shown: Seq<Ranking>, m: Map<Seq<char>, int>) -> bool {
    exists|keys: Seq<Seq<char>>, values: Seq<int>| #[trigger]
        enumerates(keys, values, m) && shown == top::<TopDomain>(
            Seq::new(keys.len(), |i: int| request_ranking(keys[i], values[i])),
            10,
        )
}

/// The ten domains with the most bytes; which of equal ones stand first, and which are left out,
/// is open.
pub open spec fn shows_traffic(shown: Seq<Ranking>, m: Map<Seq<char>, int>) -> bool {
    exists|keys: Seq<Seq<char>>, values: Seq<int>| #[trigger]
        enumerates(keys, values, m) && shown == top::<DomainTraffic>(
            Seq::new(keys.len(), |i: int| byte_ranking(keys[i], values[i])),
            10,
        )
}

/// Takes over all records of the servers that answered, and adds up their counts, if every sum is
/// an `i64`.
fn gather(results: &Vec<Option<VpsData>>) -> (r: Option<(Vec<LogRecord>, VpsTrafficData)>)
    ensures
        match r {
            Some((records, data)) => counts_fit(results@) && records_of(records@) == all_records(
                results@,
            ) && data.counts() == all_counts(results@),
            None => !counts_fit(results@),
        },
{
    let ghost all = results@;
    let mut records: Vec<LogRecord> = Vec::new();
    let mut data = VpsTrafficData { traffic: TextMap::new(), requests: TextMap::new() };
    proof {
        assert(all.take(0) =~= Seq::<Option<VpsData>>::empty());
        assert(records_of(records@) =~= Seq::<Record>::empty());
    }
    for i in 0..results.len()
        invariant
            all == results@,
            records_of(records@) == all_records(all.take(i as int)),
            data.counts() == all_counts(all.take(i as int)),
            forall|n: int|
                0 <= n < i ==> match all[n] {
                    Some(d) => {
                        let before = all_counts(#[trigger] all.take(n));
                        sums_fit(before.traffic, d.counts.traffic.map()) && sums_fit(
                            before.requests,
                            d.counts.requests.map(),
                        )
                    },
                    None => true,
                },
    {
        proof {
            let next = all.take(i as int + 1);
            assert(next.drop_last() =~= all.take(i as int));
            assert(next.last() == all[i as int]);
        }
        if let Some(d) = &results[i] {
            if !data.traffic.sums_fit(&d.counts.traffic) || !data.requests.sums_fit(
                &d.counts.requests,
            ) {
                proof {
                    let before = all_counts(all.take(i as int));
                    assert(!(sums_fit(before.traffic, d.counts.traffic.map()) && sums_fit(
                        before.requests,
                        d.counts.requests.map(),
                    )));
                }
                return None;
            }
            data.traffic.add_counts(&d.counts.traffic);
            data.requests.add_counts(&d.counts.requests);
            let ghost before = records_of(records@);
            for j in 0..d.records.len()
                invariant
                    records_of(records@) == before + records_of(d.records@).take(j as int),
            {
                let ghost here = records_of(records@);
                records.push(d.records[j].duplicate());
                proof {
                    let added = records_of(d.records@);
                    assert(records_of(records@) =~= here.push(added[j as int]));
                    assert(records_of(records@) =~= before + added.take(j as int + 1));
                }
            }
            assert(records_of(d.records@).take(d.records@.len() as int) =~= records_of(
                d.records@,
            ));
        }
    }
    assert(all.take(all.len() as int) =~= all);
    Some((records, data))
}

fn latest_records(m: TextMap<LogRecord>) -> (r: Vec<LogRecord>)
    ensures
        shows_records(rank_views(r@), m.map()),
{
    let n: usize = m.len();
    let mut items: Vec<LogRecord> = Vec::new();
    for i in 0..n
        invariant
            n == m.keys().len(),
            m.wf(),
            items@.len() == i,
            forall|j: int| 0 <= j < i ==> (#[trigger] items@[j]).model() == m.values()[j],
    {
        items.push(m.value_at(i).duplicate());
    }
    assert(rank_views(items@) =~= m.values());
    assert(enumerates(m.keys(), m.values(), m.map()));
    first_in_order(items, 20)
}

fn most_requested(m: &TextMap<i64>) -> (r: Vec<TopDomain>)
    ensures
        shows_requests(rank_views(r@), m.map()),
{
    let n: usize = m.len();
    let mut items: Vec<TopDomain> = Vec::new();
    for i in 0..n
        invariant
            n == m.keys().len(),
            m.wf(),
            items@.len() == i,
            forall|j: int|
                0 <= j < i ==> (#[trigger] items@[j]).rank_view() == request_ranking(
                    m.keys()[j],
                    m.values()[j],
                ),
    {
        let requests: i64 = *m.value_at(i);
        items.push(TopDomain { domain: m.key_at(i).clone(), count: requests as usize });
    }
    assert(rank_views(items@) =~= Seq::new(
        m.keys().len(),
        |i: int| request_ranking(m.keys()[i], m.values()[i]),
    ));
    assert(enumerates(m.keys(), m.values(), m.map()));
    first_in_order(items, 10)
}

fn most_traffic(m: &TextMap<i64>) -> (r: Vec<DomainTraffic>)
    ensures
        shows_traffic(rank_views(r@), m.map()),
{
    let n: usize = m.len();
    let mut items: Vec<DomainTraffic> = Vec::new();
    for i in 0..n
        invariant
            n == m.keys().len(),
            m.wf(),
            items@.len() == i,
            forall|j: int|
                0 <= j < i ==> (#[trigger] items@[j]).rank_view() == byte_ranking(
                    m.keys()[j],
                    m.values()[j],
                ),
    {
        items.push(DomainTraffic { domain: m.key_at(i).clone(), bytes: *m.value_at(i) });
    }
    assert(rank_views(items@) =~= Seq::new(
        m.keys().len(),
        |i: int| byte_ranking(m.keys()[i], m.values()[i]),
    ));
    assert(enumerates(m.keys(), m.values(), m.map()));
    first_in_order(items, 10)
}

/// Whether every sum of the counts of the servers is an `i64`.
pub fn can_merge(results: &Vec<Option<VpsData>>) -> (r: bool)
    ensures
        r == counts_fit(results@),
{
    gather(results).is_some()
}

/// What is shown of all servers together; nothing new where none has answered.
pub fn fetch_abnormal_traffic(results: &Vec<Option<VpsData>>) -> (r: Option<
    AbnormalTrafficResponse,
>)
    requires
        counts_fit(results@),
    ensures
        match r {
            Some(shown) => {
                &&& any_answer(results@)
                &&& shows_records(rank_views(shown.records@), by_host(all_records(results@)))
                &&& shows_requests(
                    rank_views(shown.top_domains@),
                    all_counts(results@).requests,
                )
                &&& shows_traffic(
                    rank_views(shown.domain_traffics@),
                    all_counts(results@).traffic,
                )
            },
            None => !any_answer(results@),
        },
{
    let mut answered = false;
    for i in 0..results.len()
        invariant
            answered == exists|j: int| 0 <= j < i && (#[trigger] results@[j]) is Some,
    {
        if results[i].is_some() {
            answered = true;
            assert(results@[i as int] is Some);
        }
    }
    if !answered {
        return None;
    }
    match gather(results) {
        None => None,
        Some((records, data)) => {
            let merged = merge_records(&records);
            Some(
                AbnormalTrafficResponse {
                    records: latest_records(merged),
                    top_domains: most_requested(&data.requests),
                    domain_traffics: most_traffic(&data.traffic),
                },
            )
        },
    }
}

/// The number of accesses that the records by host stand for.
pub open spec fn accesses(m: Map<Seq<char>, Record>) -> int {
    map_sum(m.map_values(|r: Record| r.count))
}

/// How many of the records have a host.
pub open spec fn with_host(records: Seq<Record>) -> int
    decreases records.len(),
{
    if records.len() == 0 {
        0
    } else {
        with_host(records.drop_last()) + if traffic_target(records.last().target).len() > 0 {
            1int
        } else {
            0
        }
    }
}

/// No access is lost: the records by host stand for as many accesses as there are records with a
/// host.
pub proof fn accesses_are_kept(records: Seq<Record>)
    ensures
        accesses(by_host(records)) == with_host(records),
        by_host(records).dom().finite(),
    decreases records.len(),
{
    let count = |r: Record| r.count;
    if records.len() == 0 {
        assert(by_host(records).map_values(count) =~= Map::<Seq<char>, int>::empty());
    } else {
        accesses_are_kept(records.drop_last());
        let before = by_host(records.drop_last());
        let after = by_host(records);
        let host = traffic_target(records.last().target);
        if host.len() > 0 {
            let a = before.map_values(count);
            let n = count_of(a, host) + 1;
            assert(a.dom() =~= before.dom());
            assert(after.map_values(count) =~= a.insert(host, n));
            lemma_sum_insert(a, host, n);
        }
    }
}

/// The latest record of a host stands for it: none of its records is later.
pub proof fn latest_record_stands(records: Seq<Record>, i: int)
    requires
        0 <= i < records.len(),
        traffic_target(records[i].target).len() > 0,
    ensures
        ({
            let host = traffic_target(records[i].target);
            by_host(records).contains_key(host) && !text_before(
                by_host(records)[host].time,
                records[i].time,
            )
        }),
    decreases records.len(),
{
    let rest = records.drop_last();
    let last = records.last();
    let host = traffic_target(records[i].target);
    let before = by_host(rest);
    let there = if before.contains_key(host) {
        before[host]
    } else {
        no_access()
    };
    if i < rest.len() {
        assert(rest[i] == records[i]);
        latest_record_stands(rest, i);
        if text_before(there.time, last.time) && text_before(last.time, records[i].time) {
            lemma_text_before_transitive(there.time, last.time, records[i].time);
        }
        if there.time.len() == 0 && records[i].time.len() > 0 {
            assert(text_before(there.time, records[i].time));
        }
    } else {
        lemma_text_before_irreflexive(last.time);
    }
}

// ---------------------------------------------------------------------------
// What a merged record is made of
// ---------------------------------------------------------------------------

/// The record at `i` is the one that stands for the host: it is one of the host's, none of the
/// host's is later, and of several that are equally late it is the first; of several without a time
/// it is the last.
pub open spec fn stands_for(records: Seq<Record>, host: Seq<char>, i: int) -> bool {
    &&& 0 <= i < records.len()
    &&& traffic_target(records[i].target) == host
    &&& forall|j: int|
        0 <= j < records.len() && traffic_target((#[trigger] records[j]).target) == host
            ==> !text_before(records[i].time, records[j].time)
    &&& forall|j: int|
        0 <= j < i && traffic_target((#[trigger] records[j]).target) == host
            && records[i].time.len() > 0 ==> text_before(records[j].time, records[i].time)
    &&& forall|j: int|
        i < j < records.len() && traffic_target((#[trigger] records[j]).target) == host
            ==> records[i].time.len() > 0
}

/// A host has a merged record exactly where one of the records is of it, and the host is not empty.
/// The merged record counts the records of the host; all else in it is taken whole from the one
/// that stands for the host.
pub proof fn merged_record_is_the_latest(records: Seq<Record>, host: Seq<char>)
    ensures
        by_host(records).contains_key(host) <==> host.len() > 0 && exists|j: int|
            0 <= j < records.len() && traffic_target((#[trigger] records[j]).target) == host,
        by_host(records).contains_key(host) ==> exists|i: int| #[trigger]
            stands_for(records, host, i) && {
                let r = by_host(records)[host];
                &&& r.time == records[i].time
                &&& r.source == records[i].source
                &&& r.action == records[i].action
                &&& r.target == records[i].target
                &&& r.strategy == records[i].strategy
                &&& r.verdict == records[i].verdict
                &&& r == (Record { count: r.count, ..records[i] })
            },
        by_host(records).contains_key(host) ==> by_host(records)[host].count == records.filter(
            |r: Record| traffic_target(r.target) == host,
        ).len(),
    decreases records.len(),
{
    reveal(Seq::filter);
    if records.len() > 0 {
        let rest = records.drop_last();
        let last = records.last();
        let n = rest.len() as int;
        merged_record_is_the_latest(rest, host);
        let before = by_host(rest);
        let after = by_host(records);
        assert(records[n] == last);
        assert forall|j: int| 0 <= j < n implies #[trigger] rest[j] == records[j] by {}
        if exists|j: int| 0 <= j < n && traffic_target((#[trigger] rest[j]).target) == host {
            let j = choose|j: int| 0 <= j < n && traffic_target((#[trigger] rest[j]).target) == host;
            assert(traffic_target(records[j].target) == host);
        }
        if exists|j: int|
            0 <= j < records.len() && traffic_target((#[trigger] records[j]).target) == host {
            let j = choose|j: int|
                0 <= j < records.len() && traffic_target((#[trigger] records[j]).target) == host;
            if j < n {
                assert(traffic_target(rest[j].target) == host);
            }
        }
        if host.len() > 0 && traffic_target(last.target) == host {
            if !before.contains_key(host) {
                assert forall|j: int|
                    0 <= j < n implies traffic_target((#[trigger] records[j]).target) != host by {
                    assert(rest[j] == records[j]);
                }
                lemma_text_before_irreflexive(last.time);
                lemma_none_of_host(rest, host);
                assert(stands_for(records, host, n));
            } else {
                let i = choose|i: int| #[trigger]
                    stands_for(rest, host, i) && before[host] == (Record {
                        count: before[host].count,
                        ..rest[i]
                    });
                let t = rest[i].time;
                assert(records[i] == rest[i]);
                lemma_text_before_irreflexive(last.time);
                if t.len() == 0 || text_before(t, last.time) {
                    assert forall|j: int|
                        0 <= j < n && traffic_target((#[trigger] records[j]).target)
                            == host implies !text_before(last.time, records[j].time) && (
                    last.time.len() > 0 ==> text_before(records[j].time, last.time)) by {
                        assert(rest[j] == records[j]);
                        let u = rest[j].time;
                        assert(!text_before(t, u));
                        lemma_text_before_total(t, u);
                        if text_before(last.time, u) {
                            if text_before(t, last.time) {
                                lemma_text_before_transitive(t, last.time, u);
                            }
                        }
                        if t.len() == 0 {
                            assert(u.len() == 0);
                        } else if text_before(u, t) {
                            lemma_text_before_transitive(u, t, last.time);
                        }
                    }
                    assert(stands_for(records, host, n));
                } else {
                    assert forall|j: int|
                        0 <= j < records.len() && traffic_target((#[trigger] records[j]).target)
                            == host implies !text_before(t, records[j].time) by {
                        if j < n {
                            assert(rest[j] == records[j]);
                        }
                    }
                    assert forall|j: int|
                        0 <= j < i && traffic_target((#[trigger] records[j]).target)
                            == host implies text_before(records[j].time, t) by {
                        assert(rest[j] == records[j]);
                    }
                    assert(stands_for(records, host, i));
                }
            }
        } else if after.contains_key(host) {
            let i = choose|i: int| #[trigger]
                stands_for(rest, host, i) && before[host] == (Record {
                    count: before[host].count,
                    ..rest[i]
                });
            assert(records[i] == rest[i]);
            assert forall|j: int|
                0 <= j < records.len() && traffic_target((#[trigger] records[j]).target)
                    == host implies j < n && rest[j] == records[j] by {}
            assert(stands_for(records, host, i));
        }
    }
}

proof fn lemma_none_of_host(records: Seq<Record>, host: Seq<char>)
    requires
        forall|j: int|
            0 <= j < records.len() ==> traffic_target((#[trigger] records[j]).target) != host,
    ensures
        records.filter(|r: Record| traffic_target(r.target) == host).len() == 0,
    decreases records.len(),
{
    reveal(Seq::filter);
    if records.len() > 0 {
        let rest = records.drop_last();
        assert forall|j: int| 0 <= j < rest.len() implies traffic_target(
            (#[trigger] rest[j]).target,
        ) != host by {
            assert(rest[j] == records[j]);
        }
        lemma_none_of_host(rest, host);
        assert(records[records.len() - 1] == records.last());
    }
}

/// The shown values are as many as the map has, but no more than `n`, and each is that of another of
/// the keys `hosts`.
pub open spec fn shown_of<M, V>(
    shown: Seq<V>,
    m: Map<Seq<char>, M>,
    n: int,
    hosts: Seq<Seq<char>>,
) -> bool {
    &&& shown.len() == if m.dom().len() < n {
        m.dom().len() as int
    } else {
        n
    }
    &&& hosts.len() == shown.len()
    &&& hosts.no_duplicates()
    &&& forall|i: int| 0 <= i < hosts.len() ==> m.contains_key(#[trigger] hosts[i])
}

/// The first `n` values in order, by the keys that they come from.
proof fn lemma_top_of_map<T: Ranked, M>(
    keys: Seq<Seq<char>>,
    values: Seq<M>,
    m: Map<Seq<char>, M>,
    items: Seq<T::V>,
    n: int,
) -> (hosts: Seq<Seq<char>>)
    requires
        enumerates(keys, values, m),
        items.len() == keys.len(),
        n >= 0,
    ensures
        shown_of(top::<T>(items, n), m, n, hosts),
        is_ordered::<T>(top::<T>(items, n)),
        forall|i: int|
            0 <= i < hosts.len() ==> exists|x: int|
                0 <= x < keys.len() && keys[x] == #[trigger] hosts[i] && values[x] == m[hosts[i]]
                    && #[trigger] items[x] == top::<T>(items, n)[i],
        forall|x: int, i: int|
            #![trigger items[x], top::<T>(items, n)[i]]
            0 <= x < keys.len() && !hosts.contains(keys[x]) && 0 <= i < hosts.len() ==> !T::first(
                items[x],
                top::<T>(items, n)[i],
            ),
{
    let p = origins::<T>(items);
    top_takes_the_first::<T>(items, n);
    lemma_map_of(keys, values);
    let shown = top::<T>(items, n);
    let hosts = Seq::new(shown.len(), |i: int| keys[p[i]]);
    assert(m.dom() =~= keys.to_set()) by {
        assert forall|k: Seq<char>| m.contains_key(k) <==> keys.contains(k) by {}
    }
    keys.unique_seq_to_set();
    assert forall|i: int| 0 <= i < hosts.len() implies m.contains_key(#[trigger] hosts[i]) && exists|
        x: int,
    |
        0 <= x < keys.len() && keys[x] == hosts[i] && values[x] == m[hosts[i]]
            && #[trigger] items[x] == shown[i] by {
        assert(hosts[i] == keys[p[i]]);
        assert(items[p[i]] == shown[i]);
    }
    assert forall|i: int, j: int| 0 <= i < hosts.len() && 0 <= j < hosts.len() && i != j implies hosts[i]
        != hosts[j] by {
        assert(p[i] != p[j]);
    }
    assert forall|x: int, i: int|
        #![trigger items[x], shown[i]]
        0 <= x < keys.len() && !hosts.contains(keys[x]) && 0 <= i < hosts.len() implies !T::first(
        items[x],
        shown[i],
    ) by {
        assert(p.contains(x));
        let j = choose|j: int| 0 <= j < p.len() && p[j] == x;
        if j < hosts.len() {
            assert(hosts[j] == keys[x]);
        }
        assert(!T::first(items[p[j]], shown[i]));
    }
    hosts
}

/// The records that are shown are those of as many hosts as there are, but no more than 20: the
/// record of each host is shown as it is, the latest first, and no record that is left out is later
/// than one that is shown.
pub proof fn latest_records_are_shown(shown: Seq<Record>, m: Map<Seq<char>, Record>) -> (hosts: Seq<
    Seq<char>,
>)
    requires
        shows_records(shown, m),
    ensures
        shown_of(shown, m, 20, hosts),
        forall|i: int| 0 <= i < shown.len() ==> #[trigger] shown[i] == m[hosts[i]],
        forall|i: int, j: int|
            0 <= i < j < shown.len() ==> !text_before(
                (#[trigger] shown[i]).time,
                (#[trigger] shown[j]).time,
            ),
        forall|k: Seq<char>, i: int|
            #![trigger m.contains_key(k), shown[i]]
            m.contains_key(k) && !hosts.contains(k) && 0 <= i < shown.len() ==> !text_before(
                shown[i].time,
                m[k].time,
            ),
{
    let (keys, values) = choose|keys: Seq<Seq<char>>, values: Seq<Record>| #[trigger]
        enumerates(keys, values, m) && shown == top::<LogRecord>(values, 20);
    let hosts = lemma_top_of_map::<LogRecord, Record>(keys, values, m, values, 20);
    assert forall|i: int| 0 <= i < shown.len() implies #[trigger] shown[i] == m[hosts[i]] by {
        let x = choose|x: int|
            0 <= x < keys.len() && keys[x] == hosts[i] && values[x] == m[hosts[i]]
                && #[trigger] values[x] == shown[i];
    }
    assert forall|i: int, j: int| 0 <= i < j < shown.len() implies !text_before(
        (#[trigger] shown[i]).time,
        (#[trigger] shown[j]).time,
    ) by {
        assert(!LogRecord::first(shown[j], shown[i]));
    }
    assert forall|k: Seq<char>, i: int|
        #![trigger m.contains_key(k), shown[i]]
        m.contains_key(k) && !hosts.contains(k) && 0 <= i < shown.len() implies !text_before(
        shown[i].time,
        m[k].time,
    ) by {
        lemma_map_of(keys, values);
        assert(keys.contains(k));
        let x = choose|x: int| 0 <= x < keys.len() && keys[x] == k;
        assert(!LogRecord::first(values[x], shown[i]));
    }
    hosts
}

/// The domains that are shown with their bytes are as many as there are, but no more than ten: each
/// with its own bytes, the most bytes first, and none that is left out has more bytes than one that
/// is shown.
pub proof fn most_bytes_are_shown(shown: Seq<Ranking>, m: Map<Seq<char>, int>) -> (hosts: Seq<
    Seq<char>,
>)
    requires
        shows_traffic(shown, m),
    ensures
        shown_of(shown, m, 10, hosts),
        forall|i: int|
            0 <= i < shown.len() ==> (#[trigger] shown[i]).domain == hosts[i] && shown[i].number
                == m[hosts[i]],
        forall|i: int, j: int|
            0 <= i < j < shown.len() ==> (#[trigger] shown[i]).number >= (
            #[trigger] shown[j]).number,
        forall|k: Seq<char>, i: int|
            #![trigger m.contains_key(k), shown[i]]
            m.contains_key(k) && !hosts.contains(k) && 0 <= i < shown.len() ==> m[k]
                <= shown[i].number,
{
    let (keys, values) = choose|keys: Seq<Seq<char>>, values: Seq<int>| #[trigger]
        enumerates(keys, values, m) && shown == top::<DomainTraffic>(
            Seq::new(keys.len(), |i: int| byte_ranking(keys[i], values[i])),
            10,
        );
    let items = Seq::new(keys.len(), |i: int| byte_ranking(keys[i], values[i]));
    let hosts = lemma_top_of_map::<DomainTraffic, int>(keys, values, m, items, 10);
    assert forall|i: int| 0 <= i < shown.len() implies (#[trigger] shown[i]).domain == hosts[i]
        && shown[i].number == m[hosts[i]] by {
        let x = choose|x: int|
            0 <= x < keys.len() && keys[x] == hosts[i] && values[x] == m[hosts[i]]
                && #[trigger] items[x] == shown[i];
    }
    assert forall|i: int, j: int| 0 <= i < j < shown.len() implies (#[trigger] shown[i]).number >= (
    #[trigger] shown[j]).number by {
        assert(!DomainTraffic::first(shown[j], shown[i]));
    }
    assert forall|k: Seq<char>, i: int|
        #![trigger m.contains_key(k), shown[i]]
        m.contains_key(k) && !hosts.contains(k) && 0 <= i < shown.len() implies m[k]
        <= shown[i].number by {
        lemma_map_of(keys, values);
        assert(keys.contains(k));
        let x = choose|x: int| 0 <= x < keys.len() && keys[x] == k;
        assert(!DomainTraffic::first(items[x], shown[i]));
    }
    hosts
}

/// The domains that are shown with their requests are as many as there are, but no more than ten:
/// each with the number of its requests, the most requests first, and none that is left out has more
/// than one that is shown. The numbers are not negative, and no larger than a `usize`.
pub proof fn most_requests_are_shown(shown: Seq<Ranking>, m: Map<Seq<char>, int>) -> (hosts: Seq<
    Seq<char>,
>)
    requires
        shows_requests(shown, m),
        forall|k: Seq<char>| #[trigger] m.contains_key(k) ==> 0 <= m[k] <= usize::MAX,
    ensures
        shown_of(shown, m, 10, hosts),
        forall|i: int|
            0 <= i < shown.len() ==> (#[trigger] shown[i]).domain == hosts[i] && shown[i].number
                == m[hosts[i]],
        forall|i: int, j: int|
            0 <= i < j < shown.len() ==> (#[trigger] shown[i]).number >= (
            #[trigger] shown[j]).number,
        forall|k: Seq<char>, i: int|
            #![trigger m.contains_key(k), shown[i]]
            m.contains_key(k) && !hosts.contains(k) && 0 <= i < shown.len() ==> m[k]
                <= shown[i].number,
{
    let (keys, values) = choose|keys: Seq<Seq<char>>, values: Seq<int>| #[trigger]
        enumerates(keys, values, m) && shown == top::<TopDomain>(
            Seq::new(keys.len(), |i: int| request_ranking(keys[i], values[i])),
            10,
        );
    let items = Seq::new(keys.len(), |i: int| request_ranking(keys[i], values[i]));
    let hosts = lemma_top_of_map::<TopDomain, int>(keys, values, m, items, 10);
    assert forall|i: int| 0 <= i < shown.len() implies (#[trigger] shown[i]).domain == hosts[i]
        && shown[i].number == m[hosts[i]] by {
        assert(m.contains_key(hosts[i]));
        let x = choose|x: int|
            0 <= x < keys.len() && keys[x] == hosts[i] && values[x] == m[hosts[i]]
                && #[trigger] items[x] == shown[i];
    }
    assert forall|i: int, j: int| 0 <= i < j < shown.len() implies (#[trigger] shown[i]).number >= (
    #[trigger] shown[j]).number by {
        assert(!TopDomain::first(shown[j], shown[i]));
    }
    assert forall|k: Seq<char>, i: int|
        #![trigger m.contains_key(k), shown[i]]
        m.contains_key(k) && !hosts.contains(k) && 0 <= i < shown.len() implies m[k]
        <= shown[i].number by {
        lemma_map_of(keys, values);
        assert(keys.contains(k));
        let x = choose|x: int| 0 <= x < keys.len() && keys[x] == k;
        assert(!TopDomain::first(items[x], shown[i]));
    }
    hosts
}

// ---------------------------------------------------------------------------
// What a line, an answer and all answers give
// ---------------------------------------------------------------------------

/// A line in the usual form gives a record exactly where its third part says that the access was
/// accepted and its target should go direct. The parts of the record are those of the line.
pub proof fn parts_of_a_line_are_kept(g: Seq<Option<Seq<char>>>, suffixes: Seq<Seq<char>>)
    requires
        g.len() == 7,
        forall|i: int| 0 <= i < g.len() ==> (#[trigger] g[i]) is Some,
    ensures
        record_in_groups(g, suffixes) is Some <==> g[3]->0 == "accepted"@ && !verdict_on(
            g[5]->0,
            suffixes,
        ).should_proxy,
        record_in_groups(g, suffixes) is Some ==> {
            let r = record_in_groups(g, suffixes)->0;
            &&& r.time == g[1]->0
            &&& r.source == g[2]->0
            &&& r.action == g[3]->0
            &&& r.target == g[5]->0
            &&& r.strategy == g[6]->0
            &&& r.count == 1
            &&& r.verdict == verdict_on(g[5]->0, suffixes)
        },
{
}

/// A line in another form gives a record exactly where it has six words or more, the fourth says that
/// the access was accepted, a word gives a target, and that should go direct. The first two words
/// are the time and the third is the source. The target is what follows `tcp:` or `udp:` in the last
/// word that begins so.
pub proof fn words_of_a_line_are_kept(ws: Seq<Seq<char>>, suffixes: Seq<Seq<char>>, t: int)
    requires
        0 <= t < ws.len(),
        starts_with(ws[t], "tcp:"@) || starts_with(ws[t], "udp:"@),
        forall|j: int|
            t < j < ws.len() ==> !starts_with(#[trigger] ws[j], "tcp:"@) && !starts_with(
                ws[j],
                "udp:"@,
            ),
    ensures
        record_in_words(ws, suffixes) is Some <==> ws.len() >= 6 && ws[3] == "accepted"@ && ws[t].len()
            > 4 && !verdict_on(ws[t].skip(4), suffixes).should_proxy,
        record_in_words(ws, suffixes) is Some ==> {
            let r = record_in_words(ws, suffixes)->0;
            &&& r.time == ws[0] + " "@ + ws[1]
            &&& r.source == ws[2]
            &&& r.action == ws[3]
            &&& r.target == ws[t].skip(4)
            &&& r.count == 1
            &&& r.verdict == verdict_on(ws[t].skip(4), suffixes)
        },
{
    lemma_last_target(ws, t);
    reveal_strlit("tcp:");
    reveal_strlit("udp:");
}

/// A line in another form without a word that gives a target gives no record.
pub proof fn no_target_no_record(ws: Seq<Seq<char>>, suffixes: Seq<Seq<char>>)
    requires
        forall|j: int|
            0 <= j < ws.len() ==> !starts_with(#[trigger] ws[j], "tcp:"@) && !starts_with(
                ws[j],
                "udp:"@,
            ),
    ensures
        record_in_words(ws, suffixes) is None,
{
    lemma_no_target(ws);
}

proof fn lemma_no_target(ws: Seq<Seq<char>>)
    requires
        forall|j: int| 0 <= j < ws.len() ==> !gives_target(#[trigger] ws[j]),
    ensures
        target_in(ws).len() == 0,
    decreases ws.len(),
{
    if ws.len() > 0 {
        let rest = ws.drop_last();
        assert(!gives_target(ws[ws.len() - 1]));
        assert forall|j: int| 0 <= j < rest.len() implies !gives_target(#[trigger] rest[j]) by {
            assert(rest[j] == ws[j]);
        }
        lemma_no_target(rest);
    }
}

proof fn lemma_last_target(ws: Seq<Seq<char>>, t: int)
    requires
        0 <= t < ws.len(),
        gives_target(ws[t]),
        forall|j: int| t < j < ws.len() ==> !gives_target(#[trigger] ws[j]),
    ensures
        target_in(ws) == ws[t].skip(4),
    decreases ws.len(),
{
    if t < ws.len() - 1 {
        let rest = ws.drop_last();
        assert(!gives_target(ws[ws.len() - 1]));
        assert forall|j: int| t < j < rest.len() implies !gives_target(#[trigger] rest[j]) by {
            assert(rest[j] == ws[j]);
        }
        assert(rest[t] == ws[t]);
        lemma_last_target(rest, t);
    }
}

/// The strategy of a line in another form is what stands between square brackets in the last word
/// that is put in them, where there are no brackets within; it is empty where no word is put in them.
pub proof fn last_brackets_give_the_strategy(ws: Seq<Seq<char>>, t: int)
    requires
        -1 <= t < ws.len(),
        t >= 0 ==> ws[t].len() >= 2 && ws[t][0] == '[' && ws[t].last() == ']' && forall|i: int|
            0 < i < ws[t].len() - 1 ==> #[trigger] ws[t][i] != '[' && ws[t][i] != ']',
        forall|j: int|
            t < j < ws.len() ==> !((#[trigger] ws[j]).len() > 0 && ws[j][0] == '[' && ws[j].last()
                == ']'),
    ensures
        t < 0 ==> strategy_in(ws).len() == 0,
        t >= 0 ==> strategy_in(ws) == ws[t].subrange(1, ws[t].len() - 1),
    decreases ws.len(),
{
    if ws.len() > 0 {
        let last = ws.len() - 1;
        if t < last {
            let rest = ws.drop_last();
            assert(!gives_strategy(ws[last]));
            if t >= 0 {
                assert(rest[t] == ws[t]);
            }
            assert forall|j: int| t < j < rest.len() implies !((#[trigger] rest[j]).len() > 0
                && rest[j][0] == '[' && rest[j].last() == ']') by {
                assert(rest[j] == ws[j]);
            }
            last_brackets_give_the_strategy(rest, t);
        } else {
            let w = ws[t];
            let brackets = CharSet::Either('[', ']');
            reveal_with_fuel(drop_leading, 2);
            reveal_with_fuel(drop_trailing, 3);
            assert(w == ws.last());
            let rest = w.skip(1);
            if w.len() > 2 {
                assert(rest[0] == w[1]);
                assert(drop_leading(w, brackets) == rest);
                assert(rest.last() == ']');
                let inner = rest.drop_last();
                assert(inner.last() == w[w.len() - 2]);
                assert(drop_trailing(rest, brackets) == inner);
                assert(inner =~= w.subrange(1, w.len() - 1));
            } else {
                assert(rest.len() == 1 && rest[0] == ']');
                reveal_with_fuel(drop_leading, 3);
                assert(drop_leading(w, brackets).len() == 0);
                assert(strategy_in(ws) =~= w.subrange(1, w.len() - 1));
            }
        }
    }
}

/// The log of an answer is what stands before the first mark; without a mark it is the whole answer,
/// and there are no counts.
pub proof fn log_ends_at_the_mark(ls: Seq<Seq<char>>, m: int)
    requires
        0 <= m <= ls.len(),
        forall|j: int| 0 <= j < m ==> #[trigger] ls[j] != "===TRAFFIC_JSON==="@,
        m < ls.len() ==> ls[m] == "===TRAFFIC_JSON==="@,
    ensures
        answer_in(ls).log == ls.take(m),
        answer_in(ls).marked <==> m < ls.len(),
        m == ls.len() ==> answer_in(ls).counts.len() == 0,
    decreases ls.len(),
{
    if ls.len() > 0 {
        let rest = ls.drop_last();
        let last = ls.len() - 1;
        assert forall|j: int| 0 <= j < rest.len() implies #[trigger] rest[j] == ls[j] by {}
        if m == ls.len() {
            log_ends_at_the_mark(rest, last);
            assert(rest.take(last) =~= rest);
            assert(ls[last] != "===TRAFFIC_JSON==="@);
            assert(rest.push(ls.last()) =~= ls.take(m));
        } else {
            log_ends_at_the_mark(rest, m);
            assert(rest.take(m) =~= ls.take(m));
        }
    }
}

/// Every line after the mark comes into the counts, in its order, with a line feed after it; the mark
/// itself does not.
pub proof fn counts_follow_the_mark(ls: Seq<Seq<char>>, line: Seq<char>)
    requires
        answer_in(ls).marked,
    ensures
        line != "===TRAFFIC_JSON==="@ ==> answer_in(ls.push(line)).counts == answer_in(ls).counts
            + line + "\n"@,
        line == "===TRAFFIC_JSON==="@ ==> answer_in(ls.push(line)).counts == answer_in(ls).counts,
        answer_in(ls.push(line)).marked,
        answer_in(ls.push(line)).log == answer_in(ls).log,
{
    assert(ls.push(line).drop_last() =~= ls);
}

/// The records of a log are those of its lines, in their order.
pub proof fn every_line_is_read(ls: Seq<Seq<char>>, line: Seq<char>, suffixes: Seq<Seq<char>>)
    ensures
        records_in(Seq::empty(), suffixes).len() == 0,
        match record_in_line(line, suffixes) {
            Some(r) => records_in(ls.push(line), suffixes) == records_in(ls, suffixes).push(r),
            None => records_in(ls.push(line), suffixes) == records_in(ls, suffixes),
        },
{
    assert(ls.push(line).drop_last() =~= ls);
}

/// A blank text has no counts. Any other has the bytes and requests that were read from it; where
/// both were not read, the bytes alone that were read from it in the older form; else none.
pub proof fn counts_are_read_in_either_form(
    text: Seq<char>,
    both: Option<VpsCounts>,
    old_form: Option<Map<Seq<char>, int>>,
)
    ensures
        ({
            let c = counts_from(text, both, old_form);
            &&& trim(text).len() == 0 || (both is None && old_form is None) ==> c.traffic == Map::<
                Seq<char>,
                int,
            >::empty() && c.requests == Map::<Seq<char>, int>::empty()
            &&& trim(text).len() > 0 && both is Some ==> c.traffic == both->0.traffic && c.requests
                == both->0.requests
            &&& trim(text).len() > 0 && both is None && old_form is Some ==> c.traffic
                == old_form->0 && c.requests == Map::<Seq<char>, int>::empty()
        }),
{
}

/// What one more server answers is added to what the others have: its records come after theirs, and
/// each of its counts is added to theirs. A server that did not answer adds nothing.
pub proof fn one_more_answer(results: Seq<Option<VpsData>>, d: VpsData, k: Seq<char>)
    ensures
        ({
            let before = all_counts(results);
            let after = all_counts(results.push(Some(d)));
            let traffic = d.counts.traffic.map();
            let requests = d.counts.requests.map();
            &&& all_records(results.push(Some(d))) == all_records(results) + records_of(d.records@)
            &&& traffic.contains_key(k) ==> grows_by(before.traffic, after.traffic, k, traffic[k])
            &&& !traffic.contains_key(k) ==> stays_under(before.traffic, after.traffic, k)
            &&& requests.contains_key(k) ==> grows_by(
                before.requests,
                after.requests,
                k,
                requests[k],
            )
            &&& !requests.contains_key(k) ==> stays_under(before.requests, after.requests, k)
        }),
        all_records(results.push(None)) == all_records(results),
        all_counts(results.push(None)) == all_counts(results),
        all_records(Seq::empty()).len() == 0,
        all_counts(Seq::empty()).traffic == Map::<Seq<char>, int>::empty(),
        all_counts(Seq::empty()).requests == Map::<Seq<char>, int>::empty(),
{
    assert(results.push(Some(d)).drop_last() =~= results);
    assert(results.push(None).drop_last() =~= results);
    let before = all_counts(results);
    counts_are_added_by_key(before.traffic, d.counts.traffic.map(), k);
    counts_are_added_by_key(before.requests, d.counts.requests.map(), k);
}

/// The usual form of a line: a time, a source, an action, a network with a target and its port, and a
/// strategy in square brackets.
pub proof fn usual_lines_have_six_parts(line: Seq<char>, suffixes: Seq<Seq<char>>)
    ensures
        ({
            let g = regex_groups_in(
                r"^([\d/]+\s+[\d:]+)\s+([\d\.:]+)\s+(accepted|rejected|rejected\s+again)\s+(tcp|udp):([\w\.\-]+:\d+)\s+\[([\w\-]+)\]"@,
                line,
            );
            &&& g is Some ==> record_in_line(line, suffixes) == record_in_groups(g->0, suffixes)
            &&& g is None ==> record_in_line(line, suffixes) == record_in_words(
                words(line),
                suffixes,
            )
        }),
{
}

/// The counts of the servers can be added up exactly where those of all but the last can, and every
/// sum that the last one changes is an `i64`.
pub proof fn answers_fit_where_their_sums_do(results: Seq<Option<VpsData>>, d: VpsData)
    ensures
        counts_fit(Seq::empty()),
        counts_fit(results.push(None)) <==> counts_fit(results),
        counts_fit(results.push(Some(d))) <==> counts_fit(results) && {
            let after = all_counts(results.push(Some(d)));
            &&& forall|k: Seq<char>| #[trigger]
                d.counts.traffic.map().contains_key(k) ==> fits(after.traffic[k])
            &&& forall|k: Seq<char>| #[trigger]
                d.counts.requests.map().contains_key(k) ==> fits(after.requests[k])
        },
{
    lemma_counts_fit_push(results, None);
    lemma_counts_fit_push(results, Some(d));
    assert(results.push(Some(d)).drop_last() =~= results);
    let before = all_counts(results);
    let traffic = d.counts.traffic.map();
    let requests = d.counts.requests.map();
    assert forall|k: Seq<char>| #[trigger] traffic.contains_key(k) implies plus(
        before.traffic,
        traffic,
    )[k] == count_of(before.traffic, k) + traffic[k] by {}
    assert forall|k: Seq<char>| #[trigger] requests.contains_key(k) implies plus(
        before.requests,
        requests,
    )[k] == count_of(before.requests, k) + requests[k] by {}
}

proof fn lemma_counts_fit_push(results: Seq<Option<VpsData>>, r: Option<VpsData>)
    ensures
        counts_fit(results.push(r)) <==> counts_fit(results) && match r {
            Some(d) => sums_fit(all_counts(results).traffic, d.counts.traffic.map()) && sums_fit(
                all_counts(results).requests,
                d.counts.requests.map(),
            ),
            None => true,
        },
{
    let all = results.push(r);
    let n = results.len() as int;
    assert(all.take(n) =~= results);
    assert(all[n] == r);
    assert forall|i: int| 0 <= i < n implies #[trigger] all.take(i) == results.take(i) && all[i]
        == results[i] by {
        assert(all.take(i) =~= results.take(i));
    }
    if counts_fit(all) {
        assert forall|i: int| 0 <= i < n implies match results[i] {
            Some(d) => {
                let before = all_counts(#[trigger] results.take(i));
                sums_fit(before.traffic, d.counts.traffic.map()) && sums_fit(
                    before.requests,
                    d.counts.requests.map(),
                )
            },
            None => true,
        } by {
            assert(all.take(i) == results.take(i));
        }
        let here = all.take(n);
    }
    if counts_fit(results) {
        assert forall|i: int| 0 <= i < n implies match all[i] {
            Some(d) => {
                let before = all_counts(#[trigger] all.take(i));
                sums_fit(before.traffic, d.counts.traffic.map()) && sums_fit(
                    before.requests,
                    d.counts.requests.map(),
                )
            },
            None => true,
        } by {
            assert(all.take(i) == results.take(i));
        }
    }
}

/// A part of a line that is there is taken as it is, and one that is not there is empty.
pub proof fn missing_parts_are_empty(g: Seq<Option<Seq<char>>>, i: int)
    requires
        i >= 0,
    ensures
        i < g.len() && g[i] is Some ==> group_or_empty(g, i) == g[i]->0,
        i >= g.len() || g[i] is None ==> group_or_empty(g, i).len() == 0,
{
}

/// What a record, the counts of a server and what is shown of a domain say is what their fields hold,
/// each under its own name.
pub proof fn records_and_counts_say_what_they_hold(
    r: LogRecord,
    d: VpsTrafficData,
    requested: TopDomain,
    moved: DomainTraffic,
)
    ensures
        r.model().time == r.time@,
        r.model().source == r.source@,
        r.model().action == r.action@,
        r.model().target == r.target@,
        r.model().strategy == r.strategy@,
        r.model().count == r.count,
        r.model().verdict.should_proxy == r.should_proxy,
        r.model().verdict.category == r.category@,
        r.model().verdict.reason == r.reason@,
        r.rank_view() == r.model(),
        d.counts().traffic == d.traffic.map(),
        d.counts().requests == d.requests.map(),
        requested.rank_view().domain == requested.domain@,
        requested.rank_view().number == requested.count,
        moved.rank_view().domain == moved.domain@,
        moved.rank_view().number == moved.bytes,
{
}

} // verus!
