//! Names of hosts: how they are written in settings, in URLs and in connection lists, and which of
//! them belong to the control plane.

use crate::foreign::{to_unicode_lowercase, unicode_lowercase};
use crate::text::{
    all_ascii, all_digits, ascii_lower, begins_with_text, char_is_digit, char_views, chars_of,
    comes_before, copied, drop_leading, drop_prefixes, drop_trailing, ends_with,
    every_prefix_is_dropped, finishes_with, first_piece, is_ascii, is_digit, is_whitespace,
    last_piece, leading_run_is_dropped, lemma_split_append, lemma_split_first, lemma_split_len,
    lemma_split_whole, lemma_text_before_irreflexive, lemma_text_before_total,
    lemma_text_before_transitive, lemma_trim_first, only_capitals_are_lowered, opt_view, part,
    same_chars, split, split_at_set, starts_with, text_before, text_of, to_ascii_lower, trim,
    trimmed, views, without_leading, without_text_prefixes, without_trailing, CharSet,
};
use vstd::prelude::*;

verus! {

// ---------------------------------------------------------------------------
// Domains
// ---------------------------------------------------------------------------

/// A host or URL without surrounding space and without its scheme.
pub open spec fn without_scheme(raw: Seq<char>) -> Seq<char> {
    drop_prefixes(drop_prefixes(trim(raw), "http://"@), "https://"@)
}

/// A domain in its normal form: no scheme, no slashes around it, no leading points, lower case.
pub open spec fn domain_form(raw: Seq<char>) -> Seq<char> {
    let slash = CharSet::One('/');
    ascii_lower(
        drop_leading(
            drop_trailing(drop_leading(without_scheme(raw), slash), slash),
            CharSet::One('.'),
        ),
    )
}

/// Brings a domain into its normal form.
pub fn normalize_domain(raw: &str) -> (r: String)
    ensures
        r@ == domain_form(raw@),
{
    let v = chars_of(raw);
    let out = normal_domain(v.as_slice());
    text_of(out.as_slice())
}

fn bare(raw: &[char]) -> (r: &[char])
    ensures
        r@ == without_scheme(raw@),
{
    without_text_prefixes(without_text_prefixes(trimmed(raw), "http://"), "https://")
}

fn normal_domain(raw: &[char]) -> (r: Vec<char>)
    ensures
        r@ == domain_form(raw@),
{
    let slash = CharSet::One('/');
    let inner = without_trailing(without_leading(bare(raw), slash), slash);
    to_ascii_lower(without_leading(inner, CharSet::One('.')))
}

/// The normal forms of the entries of a list, without those that are empty.
pub open spec fn domains_in(entries: Seq<Seq<char>>) -> Seq<Seq<char>>
    decreases entries.len(),
{
    if entries.len() == 0 {
        Seq::empty()
    } else {
        let before = domains_in(entries.drop_last());
        let domain = domain_form(entries.last());
        if domain.len() == 0 {
            before
        } else {
            before.push(domain)
        }
    }
}

/// Reads a list of domains that is separated by commas.
pub fn parse_domain_list(raw: &str) -> (r: Vec<String>)
    ensures
        views(r@) == domains_in(split(raw@, CharSet::One(','))),
{
    let v = chars_of(raw);
    let entries = split_at_set(v.as_slice(), CharSet::One(','));
    let ghost all = split(raw@, CharSet::One(','));
    let mut out: Vec<String> = Vec::new();
    assert(all.take(0) =~= Seq::<Seq<char>>::empty());
    assert(views(out@) =~= Seq::<Seq<char>>::empty());
    for i in 0..entries.len()
        invariant
            all == char_views(entries@),
            views(out@) == domains_in(all.take(i as int)),
    {
        let domain = normal_domain(entries[i].as_slice());
        proof {
            let next = all.take(i as int + 1);
            assert(next.drop_last() =~= all.take(i as int));
            assert(next.last() == entries@[i as int]@);
        }
        if domain.len() > 0 {
            let ghost before = out@;
            let text = text_of(domain.as_slice());
            out.push(text);
            assert(views(out@) =~= views(before).push(domain@));
        }
    }
    assert(all.take(all.len() as int) =~= all);
    out
}

/// The host of a URL: what stands before the path, after the credentials and before the port; a
/// host in square brackets is taken out of them.
pub open spec fn host_of(raw: Seq<char>) -> Option<Seq<char>> {
    let authority = split(without_scheme(raw), CharSet::One('/')).first();
    let place = split(authority, CharSet::One('@')).last();
    let host = if starts_with(place, seq!['[']) {
        drop_leading(split(place, CharSet::One(']')).first(), CharSet::One('['))
    } else {
        split(place, CharSet::One(':')).first()
    };
    let domain = domain_form(host);
    if domain.len() == 0 {
        None
    } else {
        Some(domain)
    }
}

/// The host of a URL.
pub fn extract_host(raw: &str) -> (r: Option<String>)
    ensures
        opt_view(r) == host_of(raw@),
{
    let v = chars_of(raw);
    let authority = first_piece(bare(v.as_slice()), CharSet::One('/'));
    let place = last_piece(authority.as_slice(), CharSet::One('@'));
    let bracketed = place.len() > 0 && place[0] == '[';
    assert(bracketed == starts_with(place@, seq!['['])) by {
        if place@.len() > 0 {
            assert(place@.take(1) =~= seq![place@[0]]);
            assert(seq!['['][0] == '[');
        }
    }
    let host = if bracketed {
        let inner = first_piece(place.as_slice(), CharSet::One(']'));
        copied(without_leading(inner.as_slice(), CharSet::One('[')))
    } else {
        first_piece(place.as_slice(), CharSet::One(':'))
    };
    let domain = normal_domain(host.as_slice());
    if domain.len() == 0 {
        None
    } else {
        Some(text_of(domain.as_slice()))
    }
}

// ---------------------------------------------------------------------------
// Control domains
// ---------------------------------------------------------------------------

/// `host` is the domain `domain` or lies below it.
pub open spec fn in_domain(host: Seq<char>, domain: Seq<char>) -> bool {
    host == domain || ends_with(host, seq!['.'] + domain)
}

/// The host belongs to one of the control domains.
pub open spec fn is_control(host: Seq<char>, domains: Seq<Seq<char>>) -> bool {
    exists|i: int|
        0 <= i < domains.len() && domain_form(#[trigger] domains[i]).len() > 0 && in_domain(
            domain_form(host),
            domain_form(domains[i]),
        )
}

pub(crate) fn lies_in(host: &[char], domain: &[char]) -> (r: bool)
    ensures
        r == in_domain(host@, domain@),
{
    if same_chars(host, domain) {
        return true;
    }
    let dotted = with_point(domain);
    finishes_with(host, dotted.as_slice())
}

fn with_point(domain: &[char]) -> (r: Vec<char>)
    ensures
        r@ == seq!['.'] + domain@,
{
    let mut out: Vec<char> = Vec::new();
    out.push('.');
    for i in 0..domain.len()
        invariant
            out@ == seq!['.'] + domain@.take(i as int),
    {
        out.push(domain[i]);
        assert(out@ =~= seq!['.'] + domain@.take(i as int + 1));
    }
    assert(domain@.take(domain@.len() as int) =~= domain@);
    out
}

/// Whether the host belongs to one of the control domains.
pub fn is_control_domain(host: &str, control_domains: &Vec<String>) -> (r: bool)
    ensures
        r == is_control(host@, views(control_domains@)),
{
    let v = chars_of(host);
    let name = normal_domain(v.as_slice());
    let ghost all = views(control_domains@);
    for i in 0..control_domains.len()
        invariant
            all == views(control_domains@),
            name@ == domain_form(host@),
            forall|j: int|
                0 <= j < i ==> !(domain_form(#[trigger] all[j]).len() > 0 && in_domain(
                    name@,
                    domain_form(all[j]),
                )),
    {
        let w = chars_of(control_domains[i].as_str());
        let domain = normal_domain(w.as_slice());
        assert(all[i as int] == w@);
        if domain.len() > 0 && lies_in(name.as_slice(), domain.as_slice()) {
            return true;
        }
    }
    false
}

/// What the settings say about routing, each as the text in which it was given.
pub struct RoutingSettings {
    /// Suffixes that go direct.
    pub direct_suffixes: Option<String>,
    /// The content of the file of suffixes that go direct.
    pub direct_suffixes_file: Option<String>,
    /// The control domains.
    pub control_domain_suffixes: Option<String>,
    /// The URL of the server that reports go to.
    pub nas_server_url: Option<String>,
}

/// The domains named by the two settings, in their order, with repetitions.
pub open spec fn named_control_domains(
    list: Option<Seq<char>>,
    url: Option<Seq<char>>,
) -> Seq<Seq<char>> {
    let first = match list {
        Some(raw) => domains_in(split(raw, CharSet::One(','))),
        None => Seq::empty(),
    };
    match url {
        Some(raw) => match host_of(raw) {
            Some(host) => first.push(host),
            None => first,
        },
        None => first,
    }
}

/// Every text comes before the next one.
pub open spec fn strictly_sorted(s: Seq<Seq<char>>) -> bool {
    forall|i: int, j: int| 0 <= i < j < s.len() ==> text_before(#[trigger] s[i], #[trigger] s[j])
}

/// `s` is `all` in order, each text once.
pub open spec fn sorted_set_of(s: Seq<Seq<char>>, all: Seq<Seq<char>>) -> bool {
    strictly_sorted(s) && forall|t: Seq<char>| #[trigger] s.contains(t) <==> all.contains(t)
}

/// Adds a text to a strictly sorted list, unless it is there.
fn insert_sorted(list: &mut Vec<String>, text: String)
    requires
        strictly_sorted(views(old(list)@)),
    ensures
        strictly_sorted(views(final(list)@)),
        forall|t: Seq<char>| #[trigger]
            views(final(list)@).contains(t) <==> views(old(list)@).contains(t) || t == text@,
{
    let ghost before = views(list@);
    let mut k: usize = 0;
    while k < list.len() && comes_before(list[k].as_str(), text.as_str())
        invariant
            k <= list@.len(),
            before == views(list@),
            forall|j: int| 0 <= j < k ==> text_before(#[trigger] before[j], text@),
        decreases list@.len() - k,
    {
        assert(before[k as int] == list@[k as int]@);
        k = k + 1;
    }
    if k < list.len() {
        assert(before[k as int] == list@[k as int]@);
        let there = chars_of(list[k].as_str());
        let new = chars_of(text.as_str());
        if same_chars(there.as_slice(), new.as_slice()) {
            assert(before.contains(text@));
            return;
        }
        proof {
            lemma_text_before_total(before[k as int], text@);
        }
    }
    list.insert(k, text);
    let ghost after = views(list@);
    assert(after =~= before.insert(k as int, text@));
    proof {
        assert forall|i: int, j: int| 0 <= i < j < after.len() implies text_before(
            #[trigger] after[i],
            #[trigger] after[j],
        ) by {
            if i < k && j == k {
                assert(text_before(before[i], text@));
            } else if i == k {
                assert(after[j] == before[j - 1]);
                if j - 1 > k {
                    assert(text_before(before[k as int], before[j - 1]));
                    lemma_text_before_transitive(text@, before[k as int], before[j - 1]);
                }
            } else if i > k {
                assert(after[i] == before[i - 1] && after[j] == before[j - 1]);
            } else if j > k {
                assert(after[j] == before[j - 1]);
            }
        }
        assert forall|t: Seq<char>| #[trigger] after.contains(t) <==> before.contains(t) || t
            == text@ by {
            if before.contains(t) {
                let i = choose|i: int| 0 <= i < before.len() && before[i] == t;
                if i < k {
                    assert(after[i] == t);
                } else {
                    assert(after[i + 1] == t);
                }
            }
            if after.contains(t) && t != text@ {
                let i = choose|i: int| 0 <= i < after.len() && after[i] == t;
                if i < k {
                    assert(before[i] == t);
                } else {
                    assert(before[i - 1] == t);
                }
            }
            assert(after[k as int] == text@);
        }
    }
}

/// The control domains that the settings name, in order, each once.
pub open spec fn control_domains_by(settings: RoutingSettings) -> Seq<Seq<char>> {
    choose|s: Seq<Seq<char>>| #[trigger]
        sorted_set_of(
            s,
            named_control_domains(
                opt_view(settings.control_domain_suffixes),
                opt_view(settings.nas_server_url),
            ),
        )
}

/// The control domains that the settings name, in order, each once.
pub fn configured_control_domain_suffixes(settings: &RoutingSettings) -> (r: Vec<String>)
    ensures
        sorted_set_of(
            views(r@),
            named_control_domains(
                opt_view(settings.control_domain_suffixes),
                opt_view(settings.nas_server_url),
            ),
        ),
        views(r@) == control_domains_by(*settings),
{
    let mut named: Vec<String> = match &settings.control_domain_suffixes {
        Some(raw) => parse_domain_list(raw.as_str()),
        None => Vec::new(),
    };
    let ghost first = views(named@);
    assert(settings.control_domain_suffixes is None ==> first =~= Seq::<Seq<char>>::empty());
    if let Some(raw) = &settings.nas_server_url {
        if let Some(host) = extract_host(raw.as_str()) {
            named.push(host);
            assert(views(named@) =~= first.push(host@));
        }
    }
    let ghost all = views(named@);
    let mut out: Vec<String> = Vec::new();
    for i in 0..named.len()
        invariant
            all == views(named@),
            strictly_sorted(views(out@)),
            forall|t: Seq<char>| #[trigger]
                views(out@).contains(t) <==> all.take(i as int).contains(t),
    {
        let ghost before = views(out@);
        let name = named[i].clone();
        insert_sorted(&mut out, name);
        proof {
            let past = all.take(i as int);
            let next = all.take(i as int + 1);
            assert(next =~= past.push(all[i as int]));
            assert(all[i as int] == named@[i as int]@);
            assert forall|t: Seq<char>| #[trigger] views(out@).contains(t) <==> next.contains(
                t,
            ) by {
                if past.contains(t) {
                    let j = choose|j: int| 0 <= j < past.len() && past[j] == t;
                    assert(next[j] == t);
                }
                if next.contains(t) {
                    let j = choose|j: int| 0 <= j < next.len() && next[j] == t;
                    if j < past.len() {
                        assert(past[j] == t);
                    }
                }
                assert(next[i as int] == named@[i as int]@);
                assert(before.contains(t) <==> past.contains(t));
            }
        }
    }
    assert(all.take(all.len() as int) =~= all);
    proof {
        assert(sorted_set_of(views(out@), all));
        sorted_set_is_unique(views(out@), control_domains_by(*settings), all);
    }
    out
}

/// A list of texts has one order in which each stands once: two such lists of the same texts are
/// the same.
pub proof fn sorted_set_is_unique(a: Seq<Seq<char>>, b: Seq<Seq<char>>, all: Seq<Seq<char>>)
    requires
        sorted_set_of(a, all),
        sorted_set_of(b, all),
    ensures
        a == b,
    decreases a.len(),
{
    lemma_heads_agree(a, b);
}

proof fn lemma_heads_agree(a: Seq<Seq<char>>, b: Seq<Seq<char>>)
    requires
        strictly_sorted(a),
        strictly_sorted(b),
        forall|t: Seq<char>| #[trigger] a.contains(t) <==> b.contains(t),
    ensures
        a == b,
    decreases a.len(),
{
    if a.len() == 0 {
        if b.len() > 0 {
            assert(b.contains(b[0]));
            assert(a.contains(b[0]));
        }
        assert(a =~= b);
    } else {
        assert(a.contains(a[0]));
        assert(b.contains(a[0]));
        let j = choose|j: int| 0 <= j < b.len() && b[j] == a[0];
        assert(b.contains(b[0]));
        assert(a.contains(b[0]));
        let i = choose|i: int| 0 <= i < a.len() && a[i] == b[0];
        if i > 0 && j > 0 {
            assert(text_before(a[0], a[i]));
            assert(text_before(b[0], b[j]));
            lemma_text_before_transitive(a[0], b[0], a[0]);
            lemma_text_before_irreflexive(a[0]);
        }
        assert(a[0] == b[0]);
        let a1 = a.skip(1);
        let b1 = b.skip(1);
        assert forall|x: int, y: int| 0 <= x < y < a1.len() implies text_before(
            #[trigger] a1[x],
            #[trigger] a1[y],
        ) by {
            assert(text_before(a[x + 1], a[y + 1]));
        }
        assert forall|x: int, y: int| 0 <= x < y < b1.len() implies text_before(
            #[trigger] b1[x],
            #[trigger] b1[y],
        ) by {
            assert(text_before(b[x + 1], b[y + 1]));
        }
        assert forall|t: Seq<char>| #[trigger] a1.contains(t) <==> b1.contains(t) by {
            lemma_tail_contains(a, t);
            lemma_tail_contains(b, t);
            assert(a.contains(t) <==> b.contains(t));
        }
        lemma_heads_agree(a1, b1);
        assert(a =~= seq![a[0]] + a1);
        assert(b =~= seq![b[0]] + b1);
    }
}

proof fn lemma_tail_contains(s: Seq<Seq<char>>, t: Seq<char>)
    requires
        strictly_sorted(s),
        s.len() > 0,
    ensures
        s.skip(1).contains(t) <==> s.contains(t) && t != s[0],
{
    if s.skip(1).contains(t) {
        let i = choose|i: int| 0 <= i < s.skip(1).len() && s.skip(1)[i] == t;
        assert(s[i + 1] == t);
        assert(text_before(s[0], s[i + 1]));
        lemma_text_before_irreflexive(t);
    }
    if s.contains(t) && t != s[0] {
        let i = choose|i: int| 0 <= i < s.len() && s[i] == t;
        assert(s.skip(1)[i - 1] == t);
    }
}

// ---------------------------------------------------------------------------
// Targets of connections
// ---------------------------------------------------------------------------

/// A text in lower case.
pub open spec fn lowercase(s: Seq<char>) -> Seq<char> {
    if is_ascii(s) {
        ascii_lower(s)
    } else {
        unicode_lowercase(s)
    }
}

/// A text in lower case.
pub fn lowercased(s: &[char]) -> (r: Vec<char>)
    ensures
        r@ == lowercase(s@),
{
    if all_ascii(s) {
        to_ascii_lower(s)
    } else {
        let text = text_of(s);
        let low = to_unicode_lowercase(text.as_str());
        chars_of(low.as_str())
    }
}

/// What stands between the brackets of a text that begins with an opening one, if there is a
/// closing one.
pub open spec fn bracketed(s: Seq<char>) -> Option<Seq<char>> {
    let head = split(s, CharSet::One(']'));
    if starts_with(s, seq!['[']) && head.len() > 1 {
        Some(head.first().skip(1))
    } else {
        None
    }
}

/// A target without the port after its last colon, if all that follows the colon is digits.
pub open spec fn without_port(s: Seq<char>) -> Seq<char> {
    let parts = split(s, CharSet::One(':'));
    let tail = parts.last();
    if parts.len() > 1 && tail.len() > 0 && all_digits(tail) {
        s.take(s.len() - tail.len() - 1)
    } else {
        s
    }
}

/// The name of a target without port that is already in lower case.
pub open spec fn target_name(low: Seq<char>) -> Seq<char> {
    match bracketed(low) {
        Some(inner) => inner,
        None => if starts_with(low, "www."@) {
            low.skip(4)
        } else {
            low
        },
    }
}

/// A target without surrounding space, without its network and without final points.
pub open spec fn target_core(target: Seq<char>) -> Seq<char> {
    drop_trailing(
        drop_prefixes(drop_prefixes(trim(target), "tcp:"@), "udp:"@),
        CharSet::One('.'),
    )
}

/// The host that a connection goes to, without network, port and leading `www.`. A port has no
/// case, and neither its colon nor its digits change that of a letter before it.
pub open spec fn traffic_target(target: Seq<char>) -> Seq<char> {
    target_name(lowercase(without_port(target_core(target))))
}

proof fn lemma_split_last_len(s: Seq<char>, set: CharSet)
    ensures
        split(s, set).len() == 1 ==> split(s, set).last() == s,
        split(s, set).len() > 1 ==> split(s, set).last().len() < s.len() && set.has(
            s[s.len() - split(s, set).last().len() - 1],
        ) && split(s, set).last() == s.skip(s.len() - split(s, set).last().len()),
    decreases s.len(),
{
    if s.len() == 0 {
        assert(split(s, set).last() =~= s);
    } else {
        lemma_split_len(s.drop_last(), set);
        lemma_split_last_len(s.drop_last(), set);
        let before = split(s.drop_last(), set);
        if set.has(s.last()) {
            assert(split(s, set).last() =~= s.skip(s.len() as int));
        } else {
            let last = split(s, set).last();
            assert(last == before.last().push(s.last()));
            if before.len() > 1 {
                assert(last =~= s.skip(s.len() - last.len()));
            } else {
                assert(last =~= s);
            }
        }
    }
}

fn portless(s: &[char]) -> (r: &[char])
    ensures
        r@ == without_port(s@),
{
    let parts = split_at_set(s, CharSet::One(':'));
    let ghost all = split(s@, CharSet::One(':'));
    proof {
        lemma_split_len(s@, CharSet::One(':'));
        lemma_split_last_len(s@, CharSet::One(':'));
        assert(all.last() == parts@.last()@);
    }
    let tail = parts[parts.len() - 1].as_slice();
    if parts.len() == 1 || tail.len() == 0 {
        return s;
    }
    for i in 0..tail.len()
        invariant
            tail@ == all.last(),
            all == split(s@, CharSet::One(':')),
            forall|j: int| 0 <= j < i ==> is_digit(#[trigger] tail@[j]),
    {
        if !char_is_digit(tail[i]) {
            assert(!is_digit(tail@[i as int]));
            return s;
        }
    }
    let k: usize = s.len() - tail.len() - 1;
    assert(s@.subrange(0, k as int) =~= s@.take(k as int));
    part(s, 0, k)
}

fn inside_brackets(s: &[char]) -> (r: Option<Vec<char>>)
    ensures
        match r {
            Some(v) => bracketed(s@) == Some(v@),
            None => bracketed(s@) is None,
        },
{
    if s.len() == 0 || s[0] != '[' {
        assert(!starts_with(s@, seq!['['])) by {
            if s@.len() > 0 {
                assert(s@.take(1)[0] == s@[0]);
                assert(seq!['['][0] == '[');
            }
        }
        return None;
    }
    assert(s@.take(1) =~= seq!['[']);
    let mut k: usize = 0;
    while k < s.len() && s[k] != ']'
        invariant
            k <= s@.len(),
            forall|j: int| 0 <= j < k ==> #[trigger] s@[j] != ']',
        decreases s@.len() - k,
    {
        k = k + 1;
    }
    if k < s.len() {
        proof {
            lemma_split_first(s@, CharSet::One(']'), k as int);
            assert(k > 0);
            assert(s@.subrange(1, k as int) =~= s@.take(k as int).skip(1));
        }
        Some(copied(part(s, 1, k)))
    } else {
        proof {
            lemma_split_whole(s@, CharSet::One(']'));
        }
        None
    }
}

/// The name of a target without port that is already in lower case: without brackets and leading
/// `www.`.
pub fn name_of_target(low: &[char]) -> (r: String)
    ensures
        r@ == target_name(low@),
{
    match inside_brackets(low) {
        Some(inner) => text_of(inner.as_slice()),
        None => {
            let rest = if begins_with_text(low, "www.") {
                proof {
                    reveal_strlit("www.");
                    assert(low@.subrange(4, low@.len() as int) =~= low@.skip(4));
                }
                part(low, 4, low.len())
            } else {
                low
            };
            text_of(rest)
        },
    }
}

/// The host that a connection goes to, without network, port and leading `www.`.
pub fn normalize_traffic_target(target: &str) -> (r: String)
    ensures
        r@ == traffic_target(target@),
{
    let v = chars_of(target);
    let core = without_trailing(
        without_text_prefixes(without_text_prefixes(trimmed(v.as_slice()), "tcp:"), "udp:"),
        CharSet::One('.'),
    );
    let low = lowercased(portless(core));
    name_of_target(low.as_slice())
}

proof fn lemma_core_of_host(s: Seq<char>)
    requires
        trim(s) == s,
        !starts_with(s, "tcp:"@),
        !starts_with(s, "udp:"@),
        s.len() == 0 || s.last() != '.',
    ensures
        target_core(s) == s,
{
}

proof fn lemma_no_network(host: Seq<char>, rest: Seq<char>, network: Seq<char>)
    requires
        !host.contains(':'),
        host != network,
        !network.contains(':'),
    ensures
        !starts_with(host + rest, network + seq![':']) || rest.len() == 0 || rest[0] != ':',
        !starts_with(host, network + seq![':']),
{
    let n = network.len() as int;
    let prefix = network + seq![':'];
    let whole = host + rest;
    if starts_with(host, prefix) {
        assert(host.take(n + 1)[n] == prefix[n]);
        assert(host[n] == ':');
        assert(host.contains(host[n]));
    }
    if starts_with(whole, prefix) && rest.len() > 0 && rest[0] == ':' {
        assert(whole.take(n + 1)[n] == ':');
        if n < host.len() {
            assert(whole[n] == host[n]);
            assert(host.contains(host[n]));
        } else if n > host.len() {
            let k = host.len() as int;
            assert(whole[k] == ':');
            assert(whole.take(n + 1)[k] == prefix[k]);
            assert(network.contains(network[k]));
        } else {
            assert(host =~= network) by {
                assert forall|i: int| 0 <= i < n implies host[i] == network[i] by {
                    assert(whole.take(n + 1)[i] == prefix[i]);
                }
            }
        }
    }
}

proof fn lemma_target_with_port(host: Seq<char>, port: Seq<char>)
    requires
        trim(host) == host,
        !host.contains(':'),
        host.len() == 0 || host.last() != '.',
        host != "tcp"@,
        host != "udp"@,
        port.len() > 0,
        all_digits(port),
    ensures
        traffic_target(host + ":"@ + port) == target_name(lowercase(host)),
        traffic_target(host) == target_name(lowercase(host)),
{
    let colon = CharSet::One(':');
    let rest = ":"@ + port;
    let whole = host + ":"@ + port;
    reveal_strlit(":");
    reveal_strlit("tcp");
    reveal_strlit("tcp:");
    reveal_strlit("udp");
    reveal_strlit("udp:");
    assert("tcp:"@ =~= "tcp"@ + seq![':']);
    assert("udp:"@ =~= "udp"@ + seq![':']);
    assert(whole =~= host + rest);
    assert(rest[0] == ':');
    lemma_no_network(host, rest, "tcp"@);
    lemma_no_network(host, rest, "udp"@);
    assert(is_digit(port[port.len() - 1]));
    assert(whole.last() == port.last());
    assert(trim(whole) == whole) by {
        if host.len() > 0 {
            assert(!is_whitespace(host[0])) by {
                lemma_trim_first(host);
            }
            assert(whole[0] == host[0]);
        } else {
            assert(whole[0] == ':');
        }
    }
    lemma_core_of_host(host);
    lemma_core_of_host(whole);
    assert forall|i: int| 0 <= i < host.len() implies !colon.has(#[trigger] host[i]) by {
        assert(host.contains(host[i]));
    }
    lemma_split_whole(host, colon);
    assert forall|i: int| 0 <= i < port.len() implies !colon.has(#[trigger] port[i]) by {
        assert(is_digit(port[i]));
    }
    lemma_split_append(host, ':', port, colon);
    assert(whole =~= host.push(':') + port);
    assert(split(whole, colon).last() == port);
    assert(without_port(whole) =~= host);
    assert(without_port(host) == host);
}

/// The port never separates two targets of one host: with any port, and with none, they are the
/// same.
pub proof fn ports_do_not_separate_targets(host: Seq<char>, port: Seq<char>, other: Seq<char>)
    requires
        trim(host) == host,
        !host.contains(':'),
        host.len() == 0 || host.last() != '.',
        host != "tcp"@,
        host != "udp"@,
        port.len() > 0,
        all_digits(port),
        other.len() > 0,
        all_digits(other),
    ensures
        traffic_target(host + ":"@ + port) == traffic_target(host),
        traffic_target(host + ":"@ + other) == traffic_target(host),
{
    lemma_target_with_port(host, port);
    lemma_target_with_port(host, other);
}

/// The key under which a node is counted: its address without brackets and port.
pub open spec fn node_key(raw: Seq<char>) -> Seq<char> {
    match bracketed(trim(raw)) {
        Some(inner) => inner,
        None => split(trim(raw), CharSet::One(':')).first(),
    }
}

/// The key under which a node is counted.
pub fn normalize_node_key(raw: &str) -> (r: String)
    ensures
        r@ == node_key(raw@),
{
    let v = chars_of(raw);
    let core = trimmed(v.as_slice());
    match inside_brackets(core) {
        Some(inner) => text_of(inner.as_slice()),
        None => {
            let key = first_piece(core, CharSet::One(':'));
            text_of(key.as_slice())
        },
    }
}

// ---------------------------------------------------------------------------
// What holds of all names
// ---------------------------------------------------------------------------

/// The text is a domain in its plain form: no white space around it, no scheme, no slash around it,
/// no point before it, no capital letter.
pub open spec fn is_plain_domain(d: Seq<char>) -> bool {
    &&& d.len() > 0
    &&& !is_whitespace(d[0]) && !is_whitespace(d.last())
    &&& !starts_with(d, "http://"@) && !starts_with(d, "https://"@)
    &&& d[0] != '/' && d[0] != '.' && d.last() != '/'
    &&& forall|i: int| 0 <= i < d.len() ==> !('A' <= #[trigger] d[i] <= 'Z')
}

/// A text that neither begins nor ends with white space is trimmed.
proof fn lemma_already_trimmed(s: Seq<char>)
    requires
        s.len() == 0 || (!is_whitespace(s[0]) && !is_whitespace(s.last())),
    ensures
        trim(s) == s,
{
}

proof fn lemma_already_low(s: Seq<char>)
    requires
        forall|i: int| 0 <= i < s.len() ==> !('A' <= #[trigger] s[i] <= 'Z'),
    ensures
        ascii_lower(s) == s,
{
    assert(ascii_lower(s) =~= s);
}

/// A plain domain is in its normal form, and that is what is left of it with a scheme before it, with
/// a slash after it or with a point before it.
pub proof fn decorations_do_not_change_a_domain(d: Seq<char>)
    requires
        is_plain_domain(d),
    ensures
        domain_form(d) == d,
        domain_form("http://"@ + d) == d,
        domain_form("https://"@ + d) == d,
        domain_form(d + "/"@) == d,
        domain_form("."@ + d) == d,
{
    reveal_strlit("http://");
    reveal_strlit("https://");
    reveal_strlit("/");
    reveal_strlit(".");
    lemma_already_trimmed(d);
    lemma_already_low(d);
    every_prefix_is_dropped(d, "http://"@);
    every_prefix_is_dropped(d, "https://"@);
    let a = "http://"@ + d;
    let b = "https://"@ + d;
    assert(a[0] == 'h' && a.last() == d.last());
    assert(b[0] == 'h' && b.last() == d.last());
    lemma_already_trimmed(a);
    lemma_already_trimmed(b);
    assert(!starts_with(b, "http://"@)) by {
        assert(b[4] == 's');
        assert("http://"@[4] == ':');
        if starts_with(b, "http://"@) {
            assert(b.take(7)[4] == b[4]);
        }
    }
    every_prefix_is_dropped(b, "http://"@);
    let c = d + "/"@;
    assert(c[0] == d[0] && c.last() == '/');
    lemma_already_trimmed(c);
    assert(!starts_with(c, "http://"@)) by {
        if starts_with(c, "http://"@) {
            assert("http://"@[6] == '/');
            if d.len() >= 7 {
                assert(d.take(7) =~= c.take(7));
            } else {
                assert(c.take(7) =~= c);
                assert(c[5] == "http://"@[5]);
                assert(d.last() == c[5]);
            }
        }
    }
    assert(!starts_with(c, "https://"@)) by {
        if starts_with(c, "https://"@) {
            assert("https://"@[7] == '/');
            if d.len() >= 8 {
                assert(d.take(8) =~= c.take(8));
            } else {
                assert(c.take(8) =~= c);
                assert(c[6] == "https://"@[6]);
                assert(d.last() == c[6]);
            }
        }
    }
    every_prefix_is_dropped(c, "http://"@);
    every_prefix_is_dropped(c, "https://"@);
    assert(c.drop_last() =~= d);
    reveal_with_fuel(drop_trailing, 2);
    let e = "."@ + d;
    assert(e[0] == '.' && e.last() == d.last());
    lemma_already_trimmed(e);
    assert(!starts_with(e, "http://"@)) by {
        if starts_with(e, "http://"@) {
            assert(e.take(7)[0] == e[0]);
        }
    }
    assert(!starts_with(e, "https://"@)) by {
        if starts_with(e, "https://"@) {
            assert(e.take(8)[0] == e[0]);
        }
    }
    every_prefix_is_dropped(e, "http://"@);
    every_prefix_is_dropped(e, "https://"@);
    assert(e.skip(1) =~= d);
    reveal_with_fuel(drop_leading, 2);
}

/// A domain in its normal form has no capital letter and no point at its beginning.
pub proof fn normal_domains_are_low(raw: Seq<char>, i: int)
    requires
        0 <= i < domain_form(raw).len(),
    ensures
        !('A' <= domain_form(raw)[i] <= 'Z'),
        domain_form(raw)[0] != '.',
{
    let slash = CharSet::One('/');
    let core = drop_trailing(drop_leading(without_scheme(raw), slash), slash);
    let point = CharSet::One('.');
    let k = leading_run_is_dropped(core, point);
    let left = drop_leading(core, point);
    only_capitals_are_lowered(left, i);
    only_capitals_are_lowered(left, 0);
}

/// Every entry of a list gives its domain in its normal form, in its order; one that is empty gives
/// none.
pub proof fn one_more_domain(entries: Seq<Seq<char>>, raw: Seq<char>)
    ensures
        domains_in(Seq::empty()).len() == 0,
        domain_form(raw).len() > 0 ==> domains_in(entries.push(raw)) == domains_in(entries).push(
            domain_form(raw),
        ),
        domain_form(raw).len() == 0 ==> domains_in(entries.push(raw)) == domains_in(entries),
{
    assert(entries.push(raw).drop_last() =~= entries);
}

/// The host of a URL is what stands between the scheme and credentials before it and the port and
/// path after it.
#[verifier::spinoff_prover]
#[verifier::rlimit(50)]
pub proof fn host_of_a_url(
    user: Seq<char>,
    host: Seq<char>,
    port: Seq<char>,
    path: Seq<char>,
)
    requires
        is_plain_domain(host),
        host[0] != '[',
        forall|i: int|
            0 <= i < host.len() ==> #[trigger] host[i] != '/' && host[i] != '@' && host[i] != ':',
        forall|i: int| 0 <= i < user.len() ==> #[trigger] user[i] != '/',
        forall|i: int| 0 <= i < port.len() ==> #[trigger] port[i] != '/' && port[i] != '@',
        path.len() == 0 || !is_whitespace(path.last()),
    ensures
        host_of("https://"@ + user + "@"@ + host + ":"@ + port + "/"@ + path) == Some(host),
        host_of("http://"@ + user + "@"@ + host + ":"@ + port + "/"@ + path) == Some(host),
{
    reveal_strlit("http://");
    reveal_strlit("https://");
    reveal_strlit("/");
    reveal_strlit("@");
    reveal_strlit(":");
    let place = host + ":"@ + port;
    let authority = user + "@"@ + place;
    let rest = authority + "/"@ + path;
    let a = "https://"@ + user + "@"@ + host + ":"@ + port + "/"@ + path;
    let b = "http://"@ + user + "@"@ + host + ":"@ + port + "/"@ + path;
    assert(a =~= "https://"@ + rest);
    assert(b =~= "http://"@ + rest);
    assert(rest.last() == if path.len() > 0 { path.last() } else { '/' });
    lemma_already_trimmed(a);
    lemma_already_trimmed(b);
    let k = authority.len() as int;
    assert(authority[user.len() as int] == '@');
    assert forall|i: int| 0 <= i < k implies #[trigger] authority[i] != '/' by {}
    assert(rest[k] == '/');
    assert(rest.take(k) =~= authority);
    assert forall|i: int| 0 <= i < k implies #[trigger] rest[i] == authority[i] by {}
    assert(!starts_with(rest, "http://"@)) by {
        if starts_with(rest, "http://"@) {
            assert(rest.take(7)[5] == rest[5]);
            assert("http://"@[5] == '/');
            assert(k <= 5);
            assert(rest[user.len() as int] == '@');
            assert(rest.take(7)[user.len() as int] == '@');
        }
    }
    assert(!starts_with(rest, "https://"@)) by {
        if starts_with(rest, "https://"@) {
            assert(rest.take(8)[6] == rest[6]);
            assert("https://"@[6] == '/');
            assert(k <= 6);
            assert(rest[user.len() as int] == '@');
            assert(rest.take(8)[user.len() as int] == '@');
        }
    }
    every_prefix_is_dropped(rest, "http://"@);
    every_prefix_is_dropped(rest, "https://"@);
    assert(!starts_with(a, "http://"@)) by {
        assert(a[4] == 's');
        if starts_with(a, "http://"@) {
            assert(a.take(7)[4] == a[4]);
            assert("http://"@[4] == ':');
        }
    }
    every_prefix_is_dropped(a, "http://"@);
    assert(without_scheme(a) == rest);
    assert(without_scheme(b) == rest);
    lemma_split_first(rest, CharSet::One('/'), k);
    assert(user.push('@') + place =~= authority);
    assert forall|i: int| 0 <= i < place.len() implies #[trigger] place[i] != '@' by {}
    lemma_split_append(user, '@', place, CharSet::One('@'));
    assert(place[host.len() as int] == ':');
    assert forall|i: int| 0 <= i < host.len() implies #[trigger] place[i] == host[i] by {}
    lemma_split_first(place, CharSet::One(':'), host.len() as int);
    assert(place.take(host.len() as int) =~= host);
    assert(!starts_with(place, seq!['['])) by {
        if starts_with(place, seq!['[']) {
            assert(place.take(1)[0] == place[0]);
        }
    }
    decorations_do_not_change_a_domain(host);
}

/// A host lies in a domain where it is the domain, or where the domain stands at its end after a
/// point; never where it only ends in the same letters.
pub proof fn domains_end_at_a_point(host: Seq<char>, domain: Seq<char>, below: Seq<char>)
    ensures
        in_domain(domain, domain),
        in_domain(below + seq!['.'] + domain, domain),
        in_domain(host, domain) && host != domain ==> {
            let k = host.len() - domain.len() - 1;
            k >= 0 && host[k] == '.' && host.skip(k + 1) == domain
        },
{
    let whole = below + seq!['.'] + domain;
    assert(whole.skip(below.len() as int) =~= seq!['.'] + domain);
    if in_domain(host, domain) && host != domain {
        let k = host.len() - domain.len() - 1;
        let tail = seq!['.'] + domain;
        assert(host.skip(k) == tail);
        assert(host.skip(k)[0] == host[k]);
        assert(host.skip(k + 1) =~= host.skip(k).skip(1));
        assert(tail.skip(1) =~= domain);
    }
}

/// A plain host belongs to the control plane exactly where it is one of the plain control domains, or
/// lies below one of them.
pub proof fn control_domains_cover_what_lies_below(host: Seq<char>, domains: Seq<Seq<char>>)
    requires
        is_plain_domain(host),
        forall|i: int| 0 <= i < domains.len() ==> is_plain_domain(#[trigger] domains[i]),
    ensures
        is_control(host, domains) <==> exists|i: int|
            0 <= i < domains.len() && (host == #[trigger] domains[i] || ends_with(
                host,
                seq!['.'] + domains[i],
            )),
{
    decorations_do_not_change_a_domain(host);
    assert forall|i: int| 0 <= i < domains.len() implies domain_form(#[trigger] domains[i])
        == domains[i] by {
        decorations_do_not_change_a_domain(domains[i]);
    }
}

/// The control domains are those that the settings list and the host of the server's URL, and no
/// others.
pub proof fn control_domains_are_those_named(
    list: Option<Seq<char>>,
    url: Option<Seq<char>>,
    d: Seq<char>,
)
    ensures
        named_control_domains(list, url).contains(d) <==> {
            ||| list is Some && domains_in(split(list->0, CharSet::One(','))).contains(d)
            ||| url is Some && host_of(url->0) == Some(d)
        },
{
    let first = match list {
        Some(raw) => domains_in(split(raw, CharSet::One(','))),
        None => Seq::empty(),
    };
    if url is Some && host_of(url->0) is Some {
        let host = host_of(url->0)->0;
        let all = first.push(host);
        assert(all[first.len() as int] == host);
        if first.contains(d) {
            let i = choose|i: int| 0 <= i < first.len() && first[i] == d;
            assert(all[i] == d);
        }
        if all.contains(d) {
            let i = choose|i: int| 0 <= i < all.len() && all[i] == d;
            if i < first.len() {
                assert(first[i] == d);
            }
        }
    }
}

/// The network before a target does not count.
pub proof fn networks_do_not_separate_targets(target: Seq<char>)
    requires
        target.len() > 0,
        !is_whitespace(target[0]),
        !is_whitespace(target.last()),
        !starts_with(target, "tcp:"@),
    ensures
        traffic_target("tcp:"@ + target) == traffic_target(target),
        traffic_target("udp:"@ + target) == traffic_target(target),
{
    reveal_strlit("tcp:");
    reveal_strlit("udp:");
    lemma_already_trimmed(target);
    let a = "tcp:"@ + target;
    let b = "udp:"@ + target;
    assert(a[0] == 't' && a.last() == target.last());
    assert(b[0] == 'u' && b.last() == target.last());
    lemma_already_trimmed(a);
    lemma_already_trimmed(b);
    every_prefix_is_dropped(target, "tcp:"@);
    every_prefix_is_dropped(target, "udp:"@);
    assert(!starts_with(b, "tcp:"@)) by {
        if starts_with(b, "tcp:"@) {
            assert(b.take(4)[0] == b[0]);
        }
    }
    every_prefix_is_dropped(b, "tcp:"@);
}

/// Points after a target do not count.
pub proof fn final_points_do_not_separate_targets(target: Seq<char>)
    requires
        target.len() > 0,
        !is_whitespace(target[0]),
        !is_whitespace(target.last()),
        !starts_with(target, "tcp:"@),
        !starts_with(target, "udp:"@),
        target != "tcp"@ && target != "udp"@,
    ensures
        traffic_target(target + "."@) == traffic_target(target),
{
    reveal_strlit("tcp:");
    reveal_strlit("udp:");
    reveal_strlit(".");
    lemma_already_trimmed(target);
    let a = target + "."@;
    assert(a[0] == target[0] && a.last() == '.');
    lemma_already_trimmed(a);
    every_prefix_is_dropped(target, "tcp:"@);
    every_prefix_is_dropped(target, "udp:"@);
    assert(!starts_with(a, "tcp:"@)) by {
        if starts_with(a, "tcp:"@) {
            if target.len() >= 4 {
                assert(target.take(4) =~= a.take(4));
            } else {
                assert(a.take(4) =~= a);
                assert(a[3] == '.');
            }
        }
    }
    assert(!starts_with(a, "udp:"@)) by {
        if starts_with(a, "udp:"@) {
            if target.len() >= 4 {
                assert(target.take(4) =~= a.take(4));
            } else {
                assert(a.take(4) =~= a);
                assert(a[3] == '.');
            }
        }
    }
    every_prefix_is_dropped(a, "tcp:"@);
    every_prefix_is_dropped(a, "udp:"@);
    assert(a.drop_last() =~= target);
}

/// A plain host in ASCII is its own target in lower case, and so it is with `www.` before it.
pub proof fn targets_are_low_and_bare(host: Seq<char>)
    requires
        host.len() > 0,
        is_ascii(host),
        !is_whitespace(host[0]),
        !is_whitespace(host.last()),
        !host.contains(':'),
        host[0] != '[',
        host.last() != '.',
        host != "tcp"@,
        host != "udp"@,
        !starts_with(ascii_lower(host), "www."@),
    ensures
        traffic_target(host) == ascii_lower(host),
        traffic_target("www."@ + host) == ascii_lower(host),
{
    reveal_strlit("www.");
    reveal_strlit("tcp");
    reveal_strlit("udp");
    let low = ascii_lower(host);
    lemma_already_trimmed(host);
    let digits = seq!['0'];
    lemma_target_with_port(host, digits);
    assert(!starts_with(low, seq!['['])) by {
        only_capitals_are_lowered(host, 0);
        if starts_with(low, seq!['[']) {
            assert(low.take(1)[0] == low[0]);
        }
    }
    let www = "www."@ + host;
    assert(www[0] == 'w' && www.last() == host.last());
    lemma_already_trimmed(www);
    assert(!www.contains(':')) by {
        if www.contains(':') {
            let i = choose|i: int| 0 <= i < www.len() && www[i] == ':';
            if i >= 4 {
                assert(host[i - 4] == ':');
                assert(host.contains(':'));
            }
        }
    }
    assert(www.len() > 4);
    lemma_target_with_port(www, digits);
    assert forall|i: int| 0 <= i < www.len() implies (#[trigger] www[i] as int) < 128 by {
        if i >= 4 {
            assert(host[i - 4] == www[i]);
        }
    }
    let low_www = ascii_lower(www);
    assert(low_www =~= "www."@ + low);
    assert(low_www.take(4) =~= "www."@);
    assert(low_www.skip(4) =~= low);
    assert(!starts_with(low_www, seq!['['])) by {
        if starts_with(low_www, seq!['[']) {
            assert(low_www.take(1)[0] == low_www[0]);
        }
    }
}

/// The key of a node is its address: the port after it, and the brackets around one with colons, do
/// not count, nor does white space around it.
pub proof fn ports_do_not_separate_nodes(address: Seq<char>, inner: Seq<char>, port: Seq<char>)
    requires
        address.len() > 0,
        !is_whitespace(address[0]),
        !is_whitespace(address.last()),
        !address.contains(':'),
        address[0] != '[',
        !inner.contains(']'),
        port.len() > 0,
        !is_whitespace(port.last()),
    ensures
        node_key(address) == address,
        node_key(address + ":"@ + port) == address,
        node_key("["@ + inner + "]"@) == inner,
        node_key("["@ + inner + "]:"@ + port) == inner,
{
    reveal_strlit(":");
    reveal_strlit("[");
    reveal_strlit("]");
    reveal_strlit("]:");
    let colon = CharSet::One(':');
    let close = CharSet::One(']');
    lemma_already_trimmed(address);
    let n = address.len() as int;
    assert forall|i: int| 0 <= i < n implies !colon.has(#[trigger] address[i]) by {
        if address[i] == ':' {
            assert(address.contains(':'));
        }
    }
    lemma_split_whole(address, colon);
    assert(!starts_with(address, seq!['['])) by {
        if starts_with(address, seq!['[']) {
            assert(address.take(1)[0] == address[0]);
        }
    }
    let a = address + ":"@ + port;
    assert(a[0] == address[0] && a.last() == port.last());
    lemma_already_trimmed(a);
    assert(!starts_with(a, seq!['['])) by {
        if starts_with(a, seq!['[']) {
            assert(a.take(1)[0] == a[0]);
        }
    }
    assert forall|i: int| 0 <= i < n implies !colon.has(#[trigger] a[i]) by {
        assert(a[i] == address[i]);
    }
    assert(a[n] == ':');
    lemma_split_first(a, colon, n);
    assert(a.take(n) =~= address);
    let b = "["@ + inner + "]"@;
    let c = "["@ + inner + "]:"@ + port;
    let k = inner.len() as int + 1;
    assert(b[0] == '[' && b.last() == ']' && b[k] == ']');
    assert(c[0] == '[' && c.last() == port.last() && c[k] == ']');
    lemma_already_trimmed(b);
    lemma_already_trimmed(c);
    assert(b.take(1) =~= seq!['[']);
    assert(c.take(1) =~= seq!['[']);
    assert forall|i: int| 0 <= i < k implies !close.has(#[trigger] b[i]) by {
        if i > 0 && b[i] == ']' {
            assert(inner[i - 1] == ']');
            assert(inner.contains(']'));
        }
    }
    assert forall|i: int| 0 <= i < k implies !close.has(#[trigger] c[i]) by {
        if i > 0 && c[i] == ']' {
            assert(inner[i - 1] == ']');
            assert(inner.contains(']'));
        }
    }
    lemma_split_first(b, close, k);
    lemma_split_first(c, close, k);
    assert(b.take(k).skip(1) =~= inner);
    assert(c.take(k).skip(1) =~= inner);
}

/// A target in square brackets is what stands between them, in lower case, with a port and without.
pub proof fn brackets_do_not_separate_targets(inner: Seq<char>, port: Seq<char>)
    requires
        is_ascii(inner),
        !inner.contains(']'),
        port.len() > 0,
        all_digits(port),
    ensures
        traffic_target("["@ + inner + "]"@) == ascii_lower(inner),
        traffic_target("["@ + inner + "]:"@ + port) == ascii_lower(inner),
{
    reveal_strlit("[");
    reveal_strlit("]");
    reveal_strlit("]:");
    reveal_strlit("tcp:");
    reveal_strlit("udp:");
    let colon = CharSet::One(':');
    let close = CharSet::One(']');
    let b = "["@ + inner + "]"@;
    let c = "["@ + inner + "]:"@ + port;
    assert(b[0] == '[' && b.last() == ']');
    assert(c[0] == '[' && c.last() == port.last());
    assert(is_digit(port[port.len() - 1]));
    assert(is_digit(port.last()));
    lemma_already_trimmed(b);
    lemma_already_trimmed(c);
    assert(!starts_with(b, "tcp:"@) && !starts_with(b, "udp:"@)) by {
        if starts_with(b, "tcp:"@) || starts_with(b, "udp:"@) {
            assert(b.take(4)[0] == b[0]);
        }
    }
    assert(!starts_with(c, "tcp:"@) && !starts_with(c, "udp:"@)) by {
        if starts_with(c, "tcp:"@) || starts_with(c, "udp:"@) {
            assert(c.take(4)[0] == c[0]);
        }
    }
    every_prefix_is_dropped(b, "tcp:"@);
    every_prefix_is_dropped(b, "udp:"@);
    every_prefix_is_dropped(c, "tcp:"@);
    every_prefix_is_dropped(c, "udp:"@);
    assert(target_core(b) == b);
    assert(target_core(c) == c);
    lemma_split_last_len(b, colon);
    let tail = split(b, colon).last();
    assert(tail.len() > 0 ==> tail.last() == ']') by {
        if split(b, colon).len() == 1 {
            assert(tail == b);
        } else {
            lemma_split_len(b, colon);
            assert(tail == b.skip(b.len() - tail.len()));
        }
    }
    assert(without_port(b) == b) by {
        if tail.len() > 0 && all_digits(tail) {
            assert(is_digit(tail[tail.len() - 1]));
        }
    }
    assert forall|i: int| 0 <= i < port.len() implies !colon.has(#[trigger] port[i]) by {
        assert(is_digit(port[i]));
    }
    assert(b.push(':') + port =~= c);
    lemma_split_append(b, ':', port, colon);
    lemma_split_len(b, colon);
    assert(c.take(c.len() - port.len() - 1) =~= b);
    assert(without_port(c) == b);
    assert forall|i: int| 0 <= i < b.len() implies (#[trigger] b[i] as int) < 128 by {
        if 0 < i < b.len() - 1 {
            assert(inner[i - 1] == b[i]);
        }
    }
    let low = ascii_lower(b);
    let low_inner = ascii_lower(inner);
    assert(low =~= seq!['['] + low_inner + seq![']']);
    let k = inner.len() as int + 1;
    assert(low.take(1) =~= seq!['[']);
    assert(low[k] == ']');
    assert forall|i: int| 0 <= i < k implies !close.has(#[trigger] low[i]) by {
        if i > 0 && low[i] == ']' {
            only_capitals_are_lowered(inner, i - 1);
            assert(inner[i - 1] == ']');
            assert(inner.contains(']'));
        }
    }
    lemma_split_first(low, close, k);
    assert(low.take(k).skip(1) =~= low_inner);
}

/// A text in ASCII is lowered letter by letter; any other is lowered by the rules of Unicode.
pub proof fn ascii_is_lowered_by_letters(s: Seq<char>)
    ensures
        is_ascii(s) ==> lowercase(s) == ascii_lower(s),
        !is_ascii(s) ==> lowercase(s) == unicode_lowercase(s),
{
}

} // verus!
