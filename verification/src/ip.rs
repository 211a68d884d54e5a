//! Recognition of IP address literals.

use crate::text::{
    all_digits, char_views, decimal, digits_value, has_at, is_digit, lemma_split_append,
    lemma_split_len, lemma_split_whole, parse_u16, part, same_chars, split, split_at_set,
    written_numbers_read_back, CharSet,
};
use vstd::prelude::*;

verus! {

/// One of the four numbers of an IPv4 address: 0 to 255, without leading zeros.
pub open spec fn is_octet(s: Seq<char>) -> bool {
    &&& 1 <= s.len() <= 3
    &&& all_digits(s)
    &&& s.len() > 1 ==> s[0] != '0'
    &&& digits_value(s) <= 255
}

/// Four numbers separated by points.
pub open spec fn is_ipv4(s: Seq<char>) -> bool {
    let parts = split(s, CharSet::One('.'));
    parts.len() == 4 && forall|i: int| 0 <= i < 4 ==> is_octet(#[trigger] parts[i])
}

pub open spec fn is_hex(c: char) -> bool {
    is_digit(c) || 'a' <= c <= 'f' || 'A' <= c <= 'F'
}

/// One group of an IPv6 address: one to four hexadecimal digits.
pub open spec fn is_group(s: Seq<char>) -> bool {
    1 <= s.len() <= 4 && forall|i: int| 0 <= i < s.len() ==> is_hex(#[trigger] s[i])
}

/// How many groups a list of groups separated by colons holds. Where `tail` holds, the list may
/// end in an IPv4 address, which stands for two groups.
pub open spec fn group_count(s: Seq<char>, tail: bool) -> Option<nat> {
    let parts = split(s, CharSet::One(':'));
    let n = parts.len();
    if s.len() == 0 {
        Some(0)
    } else if forall|i: int| 0 <= i < n - 1 ==> is_group(#[trigger] parts[i]) {
        if is_group(parts.last()) {
            Some(n)
        } else if tail && is_ipv4(parts.last()) {
            Some(n + 1)
        } else {
            None
        }
    } else {
        None
    }
}

/// `s` is an IPv6 address whose `::` stands at index `i`, for at least one group.
pub open spec fn is_short_ipv6(s: Seq<char>, i: int) -> bool {
    has_at(s, seq![':', ':'], i) && match (
        group_count(s.take(i), false),
        group_count(s.skip(i + 2), true),
    ) {
        (Some(a), Some(b)) => a + b <= 7,
        _ => false,
    }
}

/// Eight groups separated by colons; one run of zero groups may be written `::`, and the last two
/// groups may be written as an IPv4 address.
pub open spec fn is_ipv6(s: Seq<char>) -> bool {
    group_count(s, true) == Some(8nat) || exists|i: int| #[trigger] is_short_ipv6(s, i)
}

pub open spec fn is_ip(s: Seq<char>) -> bool {
    is_ipv4(s) || is_ipv6(s)
}

fn octet(s: &[char]) -> (r: bool)
    ensures
        r == is_octet(s@),
{
    if s.len() == 0 || s.len() > 3 || (s.len() > 1 && s[0] == '0') {
        return false;
    }
    if s[0] == '+' {
        assert(!is_digit(s@[0]));
        return false;
    }
    match parse_u16(s) {
        Some(v) => v <= 255,
        None => {
            proof {
                if all_digits(s@) {
                    lemma_short_value(s@);
                }
            }
            false
        },
    }
}

proof fn lemma_short_value(s: Seq<char>)
    requires
        s.len() <= 3,
        all_digits(s),
    ensures
        digits_value(s) <= 999,
{
    reveal_with_fuel(digits_value, 4);
    assert(forall|i: int| 0 <= i < s.len() ==> is_digit(#[trigger] s[i]));
    if s.len() >= 1 {
        assert(is_digit(s[s.len() - 1]));
        if s.len() >= 2 {
            assert(is_digit(s[s.len() - 2]));
            if s.len() >= 3 {
                assert(is_digit(s[s.len() - 3]));
            }
        }
    }
}

fn ipv4(s: &[char]) -> (r: bool)
    ensures
        r == is_ipv4(s@),
{
    let parts = split_at_set(s, CharSet::One('.'));
    let ghost all = split(s@, CharSet::One('.'));
    if parts.len() != 4 {
        return false;
    }
    for i in 0..4
        invariant
            parts@.len() == 4,
            all == char_views(parts@),
            all == split(s@, CharSet::One('.')),
            forall|j: int| 0 <= j < i ==> is_octet(#[trigger] all[j]),
    {
        assert(all[i as int] == parts@[i as int]@);
        if !octet(parts[i].as_slice()) {
            return false;
        }
    }
    true
}

fn hex(c: char) -> (r: bool)
    ensures
        r == is_hex(c),
{
    let n: u32 = c as u32;
    (0x30 <= n && n <= 0x39) || (0x61 <= n && n <= 0x66) || (0x41 <= n && n <= 0x46)
}

fn group(s: &[char]) -> (r: bool)
    ensures
        r == is_group(s@),
{
    if s.len() == 0 || s.len() > 4 {
        return false;
    }
    for i in 0..s.len()
        invariant
            forall|j: int| 0 <= j < i ==> is_hex(#[trigger] s@[j]),
    {
        if !hex(s[i]) {
            assert(!is_hex(s@[i as int]));
            return false;
        }
    }
    true
}

fn count_groups(s: &[char], tail: bool) -> (r: Option<usize>)
    ensures
        match r {
            Some(n) => group_count(s@, tail) == Some(n as nat),
            None => match group_count(s@, tail) {
                Some(n) => n > 8,
                None => true,
            },
        },
{
    if s.len() == 0 {
        return Some(0);
    }
    let parts = split_at_set(s, CharSet::One(':'));
    let ghost all = split(s@, CharSet::One(':'));
    proof {
        lemma_split_len(s@, CharSet::One(':'));
    }
    let n: usize = parts.len();
    if n > 8 {
        return None;
    }
    for i in 0..n - 1
        invariant
            n == parts@.len(),
            n >= 1,
            s@.len() > 0,
            all == char_views(parts@),
            all == split(s@, CharSet::One(':')),
            forall|j: int| 0 <= j < i ==> is_group(#[trigger] all[j]),
    {
        assert(all[i as int] == parts@[i as int]@);
        if !group(parts[i].as_slice()) {
            return None;
        }
    }
    let last = parts[n - 1].as_slice();
    assert(all.last() == last@);
    if group(last) {
        Some(n)
    } else if tail && ipv4(last) {
        Some(n + 1)
    } else {
        None
    }
}

fn ipv6(s: &[char]) -> (r: bool)
    ensures
        r == is_ipv6(s@),
{
    match count_groups(s, true) {
        Some(n) => if n == 8 {
            return true;
        },
        None => {},
    }
    let n: usize = s.len();
    let mark: [char; 2] = [':', ':'];
    assert(mark@ =~= seq![':', ':']);
    let mut i: usize = 0;
    while i < n
        invariant
            i <= n,
            n == s@.len(),
            mark@ == seq![':', ':'],
            group_count(s@, true) != Some(8nat),
            forall|j: int| 0 <= j < i ==> !#[trigger] is_short_ipv6(s@, j),
        decreases n - i,
    {
        if n - i >= 2 && same_chars(part(s, i, i + 2), mark.as_slice()) {
            let head = part(s, 0, i);
            let tail = part(s, i + 2, n);
            assert(head@ =~= s@.take(i as int));
            assert(tail@ =~= s@.skip(i as int + 2));
            if let Some(a) = count_groups(head, false) {
                if let Some(b) = count_groups(tail, true) {
                    if a <= 7 && b <= 7 && a + b <= 7 {
                        assert(is_short_ipv6(s@, i as int));
                        return true;
                    }
                }
            }
        }
        assert(!is_short_ipv6(s@, i as int));
        i = i + 1;
    }
    false
}

/// Whether the text is an IPv4 or an IPv6 address.
pub fn is_ip_address(s: &[char]) -> (r: bool)
    ensures
        r == is_ip(s@),
{
    ipv4(s) || ipv6(s)
}

/// Four numbers of up to 255 with points between them are an address, and four of which one is larger
/// are none.
pub proof fn four_octets_are_an_address(a: nat, b: nat, c: nat, d: nat)
    ensures
        is_ipv4(decimal(a) + "."@ + decimal(b) + "."@ + decimal(c) + "."@ + decimal(d)) <==> a <= 255
            && b <= 255 && c <= 255 && d <= 255,
{
    reveal_strlit(".");
    let point = CharSet::One('.');
    lemma_octet(a);
    lemma_octet(b);
    lemma_octet(c);
    lemma_octet(d);
    let x = decimal(a);
    let y = decimal(b);
    let z = decimal(c);
    let w = decimal(d);
    let whole = x + "."@ + y + "."@ + z + "."@ + w;
    lemma_split_whole(x, point);
    lemma_split_append(x, '.', y, point);
    let two = x.push('.') + y;
    lemma_split_append(two, '.', z, point);
    let three = two.push('.') + z;
    lemma_split_append(three, '.', w, point);
    assert(three.push('.') + w =~= whole);
    let parts = split(whole, point);
    assert(parts =~= seq![x, y, z, w]);
    assert(parts[0] == x && parts[1] == y && parts[2] == z && parts[3] == w);
    if is_ipv4(whole) {
        assert(is_octet(parts[0]) && is_octet(parts[1]) && is_octet(parts[2]) && is_octet(
            parts[3],
        ));
    }
}

proof fn lemma_octet(n: nat)
    ensures
        is_octet(decimal(n)) <==> n <= 255,
        forall|i: int| 0 <= i < decimal(n).len() ==> !CharSet::One('.').has(
            #[trigger] decimal(n)[i],
        ),
{
    written_numbers_read_back(n);
    if n <= 255 {
        reveal_with_fuel(decimal, 4);
    }
    assert forall|i: int| 0 <= i < decimal(n).len() implies !CharSet::One('.').has(
        #[trigger] decimal(n)[i],
    ) by {
        assert(is_digit(decimal(n)[i]));
    }
}

/// A text with a character that is neither a hexadecimal digit nor a point nor a colon is no address.
pub proof fn names_are_no_addresses(s: Seq<char>, i: int)
    requires
        0 <= i < s.len(),
        !is_hex(s[i]) && s[i] != '.' && s[i] != ':',
    ensures
        !is_ip(s),
{
    if is_ipv4(s) {
        lemma_octet_chars(s, i);
    }
    if group_count(s, true) is Some {
        lemma_group_chars(s, true, i);
    }
    if exists|k: int| #[trigger] is_short_ipv6(s, k) {
        let k = choose|k: int| #[trigger] is_short_ipv6(s, k);
        assert(s.subrange(k, k + 2)[0] == s[k]);
        assert(s.subrange(k, k + 2)[1] == s[k + 1]);
        assert(s[k] == ':' && s[k + 1] == ':');
        if i < k {
            assert(s.take(k)[i] == s[i]);
            lemma_group_chars(s.take(k), false, i);
        } else {
            assert(s.skip(k + 2)[i - k - 2] == s[i]);
            lemma_group_chars(s.skip(k + 2), true, i - k - 2);
        }
    }
}

/// Every character of a text stands in one of its pieces, or is one that it is split at.
proof fn lemma_in_a_piece(s: Seq<char>, set: CharSet, i: int)
    requires
        0 <= i < s.len(),
        !set.has(s[i]),
    ensures
        exists|k: int, j: int|
            0 <= k < split(s, set).len() && 0 <= j < split(s, set)[k].len()
                && #[trigger] split(s, set)[k][j] == s[i],
    decreases s.len(),
{
    let rest = s.drop_last();
    let before = split(rest, set);
    let all = split(s, set);
    lemma_split_len(rest, set);
    if i == s.len() - 1 {
        let k = before.len() - 1;
        let j = before.last().len() as int;
        assert(all[k][j] == s[i]);
    } else {
        assert(rest[i] == s[i]);
        lemma_in_a_piece(rest, set, i);
        let (k, j) = choose|k: int, j: int|
            0 <= k < before.len() && 0 <= j < before[k].len() && #[trigger] before[k][j] == rest[i];
        assert(all[k][j] == s[i]);
    }
}

proof fn lemma_octet_chars(s: Seq<char>, i: int)
    requires
        is_ipv4(s),
        0 <= i < s.len(),
    ensures
        is_digit(s[i]) || s[i] == '.',
{
    let point = CharSet::One('.');
    if s[i] != '.' {
        lemma_in_a_piece(s, point, i);
        let parts = split(s, point);
        let (k, j) = choose|k: int, j: int|
            0 <= k < parts.len() && 0 <= j < parts[k].len() && #[trigger] parts[k][j] == s[i];
        assert(is_octet(parts[k]));
        assert(is_digit(parts[k][j]));
    }
}

proof fn lemma_group_chars(s: Seq<char>, tail: bool, i: int)
    requires
        group_count(s, tail) is Some,
        0 <= i < s.len(),
    ensures
        is_hex(s[i]) || s[i] == '.' || s[i] == ':',
{
    let colon = CharSet::One(':');
    if s[i] != ':' {
        lemma_in_a_piece(s, colon, i);
        let parts = split(s, colon);
        let (k, j) = choose|k: int, j: int|
            0 <= k < parts.len() && 0 <= j < parts[k].len() && #[trigger] parts[k][j] == s[i];
        if is_group(parts[k]) {
            assert(is_hex(parts[k][j]));
        } else {
            assert(k == parts.len() - 1);
            lemma_octet_chars(parts[k], j);
        }
    }
}

/// A group of one to four hexadecimal digits is one group, and after a colon it is one more. An IPv4
/// address at the end stands for two.
pub proof fn groups_are_counted(s: Seq<char>, g: Seq<char>, tail: bool, n: nat)
    requires
        1 <= g.len() <= 4,
        forall|i: int| 0 <= i < g.len() ==> is_hex(#[trigger] g[i]),
    ensures
        group_count(Seq::empty(), tail) == Some(0nat),
        group_count(g, tail) == Some(1nat),
        s.len() > 0 && group_count(s, false) == Some(n) ==> group_count(s.push(':') + g, tail)
            == Some((n + 1) as nat),
{
    let colon = CharSet::One(':');
    assert forall|i: int| 0 <= i < g.len() implies !colon.has(#[trigger] g[i]) by {
        assert(is_hex(g[i]));
    }
    lemma_split_whole(g, colon);
    assert(is_group(g));
    if s.len() > 0 && group_count(s, false) == Some(n) {
        lemma_split_append(s, ':', g, colon);
        lemma_split_len(s, colon);
        let before = split(s, colon);
        let all = split(s.push(':') + g, colon);
        assert(all == before.push(g));
        assert forall|i: int| 0 <= i < all.len() - 1 implies is_group(#[trigger] all[i]) by {
            assert(all[i] == before[i]);
        }
    }
}

/// Two colons stand for the groups that are missing of eight, at least one; without them there are
/// exactly eight groups.
pub proof fn two_colons_stand_for_missing_groups(
    left: Seq<char>,
    right: Seq<char>,
    s: Seq<char>,
)
    ensures
        group_count(left, false) is Some && group_count(right, true) is Some && group_count(
            left,
            false,
        )->0 + group_count(right, true)->0 <= 7 ==> is_ip(left + seq![':', ':'] + right),
        (forall|i: int| 0 <= i < s.len() - 1 && #[trigger] s[i] == ':' ==> s[i + 1] != ':')
            && !is_ipv4(s) ==> (is_ip(s) <==> group_count(s, true) == Some(8nat)),
{
    let k = left.len() as int;
    let whole = left + seq![':', ':'] + right;
    assert(whole.take(k) =~= left);
    assert(whole.skip(k + 2) =~= right);
    assert(whole.subrange(k, k + 2) =~= seq![':', ':']);
    if group_count(left, false) is Some && group_count(right, true) is Some && group_count(
        left,
        false,
    )->0 + group_count(right, true)->0 <= 7 {
        assert(is_short_ipv6(whole, k));
    }
    if exists|i: int| #[trigger] is_short_ipv6(s, i) {
        let i = choose|i: int| #[trigger] is_short_ipv6(s, i);
        assert(s.subrange(i, i + 2)[0] == s[i]);
        assert(s.subrange(i, i + 2)[1] == s[i + 1]);
        assert(s[i] == ':' && s[i + 1] == ':');
    }
}

} // verus!
