//! What is read from the servers themselves: their access logs, and the bytes and requests that
//! they count by domain.

use crate::pattern::{compile, group_views, groups_of, regex_groups_in, Pattern};
use crate::text::{
    as_i64, as_u64, char_views, chars_of, decimal, decimal_text, lines, opt_view, parse_i64,
    parse_u64, part, signed_in, split, split_at_set, text_of, trim, trimmed, unsigned_in, views,
    written_numbers_read_back, CharSet,
};
use crate::text_map::fits;
use vstd::prelude::*;
use vstd::string::StringExecFns;

verus! {

// ---------------------------------------------------------------------------
// The bytes of a socket
// ---------------------------------------------------------------------------

/// The text of the first group of a match.
pub open spec fn first_group(groups: Option<Seq<Option<Seq<char>>>>) -> Option<Seq<char>> {
    match groups {
        Some(g) => if g.len() > 1 {
            g[1]
        } else {
            None
        },
        None => None,
    }
}

/// The number in a text, zero where it is none.
pub open spec fn number_or_zero(text: Option<Seq<char>>) -> int {
    match text {
        Some(t) => match as_i64(signed_in(t)) {
            Some(n) => n as int,
            None => 0,
        },
        None => 0,
    }
}

/// The bytes that a socket has sent and received, by the texts of the two numbers.
pub open spec fn socket_bytes(sent: Option<Seq<char>>, received: Option<Seq<char>>) -> int {
    number_or_zero(sent) + number_or_zero(received)
}

/// The text of the number of bytes that a line of statistics says were sent.
pub open spec fn sent_in(line: Seq<char>) -> Option<Seq<char>> {
    first_group(regex_groups_in(r"bytes_sent:(\d+)"@, line))
}

/// The text of the number of bytes that a line of statistics says were received.
pub open spec fn received_in(line: Seq<char>) -> Option<Seq<char>> {
    first_group(regex_groups_in(r"bytes_received:(\d+)"@, line))
}

fn number_of(text: &Option<String>) -> (r: i64)
    ensures
        r == number_or_zero(opt_view(*text)),
{
    match text {
        Some(t) => {
            let v = chars_of(t.as_str());
            match parse_i64(v.as_slice()) {
                Some(n) => n,
                None => 0,
            }
        },
        None => 0,
    }
}

pub(crate) fn group_at(groups: &Option<Vec<Option<String>>>, i: usize) -> (r: Option<String>)
    ensures
        opt_view(r) == match group_views(*groups) {
            Some(g) => if i < g.len() {
                g[i as int]
            } else {
                None
            },
            None => None,
        },
{
    match groups {
        Some(g) => {
            if i < g.len() {
                assert(group_views(*groups)->0[i as int] == opt_view(g@[i as int]));
                match &g[i] {
                    Some(s) => Some(s.clone()),
                    None => None,
                }
            } else {
                None
            }
        },
        None => None,
    }
}

/// The bytes that a socket has sent and received, by the texts of the two numbers, if the sum is
/// an `i64`.
pub fn checked_socket_bytes(sent: &Option<String>, received: &Option<String>) -> (r: Option<i64>)
    ensures
        match r {
            Some(n) => n == socket_bytes(opt_view(*sent), opt_view(*received)),
            None => !fits(socket_bytes(opt_view(*sent), opt_view(*received))),
        },
{
    number_of(sent).checked_add(number_of(received))
}

/// Reads lines of statistics.
pub struct StatisticsReader {
    sent: Pattern,
    received: Pattern,
}

impl StatisticsReader {
    #[verifier::type_invariant]
    spec fn inv(self) -> bool {
        self.sent@ == r"bytes_sent:(\d+)"@ && self.received@ == r"bytes_received:(\d+)"@
    }

    /// The forms of the two numbers.
    pub closed spec fn forms(self) -> (Seq<char>, Seq<char>) {
        (self.sent@, self.received@)
    }

    pub fn new() -> (r: StatisticsReader)
        ensures
            r.forms() == (r"bytes_sent:(\d+)"@, r"bytes_received:(\d+)"@),
    {
        StatisticsReader {
            sent: compile(r"bytes_sent:(\d+)"),
            received: compile(r"bytes_received:(\d+)"),
        }
    }

    /// The bytes that a socket has sent and received, from a line of statistics, if the sum is an
    /// `i64`.
    pub fn read(&self, stats_line: &str) -> (r: Option<i64>)
        ensures
            match r {
                Some(n) => n == socket_bytes(sent_in(stats_line@), received_in(stats_line@)),
                None => !fits(socket_bytes(sent_in(stats_line@), received_in(stats_line@))),
            },
    {
        proof {
            use_type_invariant(self);
        }
        let sent = groups_of(&self.sent, stats_line);
        let received = groups_of(&self.received, stats_line);
        checked_socket_bytes(&group_at(&sent, 1), &group_at(&received, 1))
    }
}

/// The bytes that a socket has sent and received, from a line of statistics, if the sum is an
/// `i64`.
pub fn checked_ss_total_bytes(stats_line: &str) -> (r: Option<i64>)
    ensures
        match r {
            Some(n) => n == socket_bytes(sent_in(stats_line@), received_in(stats_line@)),
            None => !fits(socket_bytes(sent_in(stats_line@), received_in(stats_line@))),
        },
{
    if StatisticsReader::new().read(stats_line).is_some() {
        Some(parse_ss_total_bytes(stats_line))
    } else {
        None
    }
}

/// The bytes that a socket has sent and received, from a line of statistics. Other numbers of the
/// line do not count.
pub fn parse_ss_total_bytes(stats_line: &str) -> (r: i64)
    requires
        fits(socket_bytes(sent_in(stats_line@), received_in(stats_line@))),
    ensures
        r == socket_bytes(sent_in(stats_line@), received_in(stats_line@)),
{
    StatisticsReader::new().read(stats_line).unwrap()
}

// ---------------------------------------------------------------------------
// How the servers are reached
// ---------------------------------------------------------------------------

/// What is said where SSH failed.
pub open spec fn ssh_error(stderr: Seq<char>, user: Seq<char>, host: Seq<char>) -> Seq<char> {
    let message = trim(stderr);
    "SSH 返回失败 ("@ + user + "@"@ + host + "): "@ + if message.len() == 0 {
        "无 stderr 输出"@
    } else if message.len() > 300 {
        message.take(300)
    } else {
        message
    }
}

/// Turns the outcome of SSH into a result; what it wrote to its error output is cut after 300
/// characters.
pub fn validate_ssh_status(success: bool, stderr: &str, user: &str, host: &str) -> (r: Result<
    (),
    String,
>)
    ensures
        match r {
            Ok(_) => success,
            Err(e) => !success && e@ == ssh_error(stderr@, user@, host@),
        },
{
    if success {
        return Ok(());
    }
    let v = chars_of(stderr);
    let t = trimmed(v.as_slice());
    let message = if t.len() == 0 {
        "无 stderr 输出".to_owned()
    } else if t.len() > 300 {
        assert(t@.subrange(0, 300) =~= t@.take(300));
        text_of(part(t, 0, 300))
    } else {
        text_of(t)
    };
    Err(
        "SSH 返回失败 (".to_owned().concat(user).concat("@").concat(host).concat("): ").concat(
            message.as_str(),
        ),
    )
}

/// What the settings say about the servers to read from, each as the text in which it was given.
pub struct SshSettings {
    pub hosts: String,
    pub ports: String,
    pub users: String,
    pub host: String,
    pub port: String,
    pub user: String,
}

/// A server to read from.
pub struct SshTarget {
    pub host: String,
    pub port: String,
    pub user: String,
}

/// A server to read from.
#[verifier::ext_equal]
pub struct Target {
    pub host: Seq<char>,
    pub port: Seq<char>,
    pub user: Seq<char>,
}

impl SshTarget {
    pub open spec fn target(self) -> Target {
        Target { host: self.host@, port: self.port@, user: self.user@ }
    }
}

pub open spec fn targets_of(s: Seq<SshTarget>) -> Seq<Target> {
    s.map_values(|t: SshTarget| t.target())
}

/// The entry `i` of a list without surrounding space, or the default where there is none.
pub open spec fn entry_or(list: Seq<Seq<char>>, i: int, default: Seq<char>) -> Seq<char> {
    trim(
        if i < list.len() {
            list[i]
        } else {
            default
        },
    )
}

/// The servers of the first `n` hosts; a blank host is passed over.
pub open spec fn listed_targets(
    hosts: Seq<Seq<char>>,
    ports: Seq<Seq<char>>,
    users: Seq<Seq<char>>,
    n: int,
) -> Seq<Target>
    decreases n,
{
    if n <= 0 {
        Seq::empty()
    } else {
        let before = listed_targets(hosts, ports, users, n - 1);
        let host = trim(hosts[n - 1]);
        if host.len() == 0 {
            before
        } else {
            before.push(
                Target {
                    host,
                    port: entry_or(ports, n - 1, "22"@),
                    user: entry_or(users, n - 1, "root"@),
                },
            )
        }
    }
}

/// The servers to read from: those of the lists, or the single one where there is no list.
pub open spec fn targets_by(s: SshSettings) -> Seq<Target> {
    let comma = CharSet::One(',');
    if s.hosts@.len() > 0 {
        listed_targets(
            split(s.hosts@, comma),
            split(s.ports@, comma),
            split(s.users@, comma),
            split(s.hosts@, comma).len() as int,
        )
    } else if s.host@.len() > 0 {
        seq![Target { host: s.host@, port: s.port@, user: s.user@ }]
    } else {
        Seq::empty()
    }
}

fn entry_at(list: &Vec<Vec<char>>, i: usize, default: &str) -> (r: String)
    ensures
        r@ == entry_or(char_views(list@), i as int, default@),
{
    if i < list.len() {
        assert(char_views(list@)[i as int] == list@[i as int]@);
        text_of(trimmed(list[i].as_slice()))
    } else {
        let v = chars_of(default);
        text_of(trimmed(v.as_slice()))
    }
}

/// The servers to read from.
pub fn ssh_targets(settings: &SshSettings) -> (r: Vec<SshTarget>)
    ensures
        targets_of(r@) == targets_by(*settings),
{
    let mut out: Vec<SshTarget> = Vec::new();
    if settings.hosts.as_str().is_empty() {
        if !settings.host.as_str().is_empty() {
            out.push(
                SshTarget {
                    host: settings.host.clone(),
                    port: settings.port.clone(),
                    user: settings.user.clone(),
                },
            );
        }
        assert(targets_of(out@) =~= targets_by(*settings));
        return out;
    }
    let h = chars_of(settings.hosts.as_str());
    let p = chars_of(settings.ports.as_str());
    let u = chars_of(settings.users.as_str());
    let hosts = split_at_set(h.as_slice(), CharSet::One(','));
    let ports = split_at_set(p.as_slice(), CharSet::One(','));
    let users = split_at_set(u.as_slice(), CharSet::One(','));
    assert(targets_of(out@) =~= Seq::<Target>::empty());
    for i in 0..hosts.len()
        invariant
            targets_of(out@) == listed_targets(
                char_views(hosts@),
                char_views(ports@),
                char_views(users@),
                i as int,
            ),
    {
        assert(char_views(hosts@)[i as int] == hosts@[i as int]@);
        let host = trimmed(hosts[i].as_slice());
        if host.len() > 0 {
            let ghost before = out@;
            let t = SshTarget {
                host: text_of(host),
                port: entry_at(&ports, i, "22"),
                user: entry_at(&users, i, "root"),
            };
            let ghost view = t.target();
            out.push(t);
            assert(targets_of(out@) =~= targets_of(before).push(view));
        }
    }
    out
}

/// How many lines of the log are read, from the setting.
pub open spec fn tail_lines_by(setting: Option<Seq<char>>) -> nat {
    match setting {
        Some(text) => match as_u64(unsigned_in(text)) {
            Some(n) => if n <= u32::MAX {
                n as nat
            } else {
                10000
            },
            None => 10000,
        },
        None => 10000,
    }
}

/// The command that a server is asked to run: the end of its log, and what it has counted.
pub open spec fn remote_command_for(lines: nat) -> Seq<char> {
    "tail -n "@ + decimal(lines)
        + " /var/log/v2ray/access.log 2>/dev/null || true; echo '===TRAFFIC_JSON==='; cat /var/log/v2ray/domain_traffic.json 2>/dev/null || echo '{}'"@
}

/// The command that a server is asked to run, with the number of lines of the setting.
pub fn remote_command(tail_lines: &Option<String>) -> (r: String)
    ensures
        r@ == remote_command_for(tail_lines_by(opt_view(*tail_lines))),
{
    let n: u64 = match tail_lines {
        Some(text) => {
            let v = chars_of(text.as_str());
            match parse_u64(v.as_slice()) {
                Some(n) => if n <= 0xffff_ffff {
                    n
                } else {
                    10000
                },
                None => 10000,
            }
        },
        None => 10000,
    };
    let digits = decimal_text(n as u128);
    "tail -n ".to_owned().concat(digits.as_str()).concat(
        " /var/log/v2ray/access.log 2>/dev/null || true; echo '===TRAFFIC_JSON==='; cat /var/log/v2ray/domain_traffic.json 2>/dev/null || echo '{}'",
    )
}

/// The arguments with which SSH runs a command on a server.
pub open spec fn ssh_arguments_for(t: Target, strict: Seq<char>, command: Seq<char>) -> Seq<
    Seq<char>,
> {
    seq![
        "-o"@,
        "StrictHostKeyChecking="@ + strict,
        "-o"@,
        "ConnectTimeout=10"@,
        "-p"@,
        t.port,
        t.user + "@"@ + t.host,
        command,
    ]
}

/// The arguments with which SSH runs a command on a server; `strict` is the setting for the keys
/// of hosts, `accept-new` where there is none.
pub fn ssh_arguments(target: &SshTarget, strict: &Option<String>, command: String) -> (r: Vec<
    String,
>)
    ensures
        views(r@) == ssh_arguments_for(
            target.target(),
            match opt_view(*strict) {
                Some(s) => s,
                None => "accept-new"@,
            },
            command@,
        ),
{
    let checking = match strict {
        Some(s) => "StrictHostKeyChecking=".to_owned().concat(s.as_str()),
        None => "StrictHostKeyChecking=".to_owned().concat("accept-new"),
    };
    let destination = target.user.clone().concat("@").concat(target.host.as_str());
    let mut out: Vec<String> = Vec::new();
    out.push("-o".to_owned());
    out.push(checking);
    out.push("-o".to_owned());
    out.push("ConnectTimeout=10".to_owned());
    out.push("-p".to_owned());
    out.push(target.port.clone());
    out.push(destination);
    out.push(command);
    assert(views(out@) =~= ssh_arguments_for(
        target.target(),
        match opt_view(*strict) {
            Some(s) => s,
            None => "accept-new"@,
        },
        command@,
    ));
    out
}

// ---------------------------------------------------------------------------
// What holds of all settings
// ---------------------------------------------------------------------------

/// The bytes of a socket are those it has sent and those it has received together; a number that is
/// not there counts as zero.
pub proof fn sent_and_received_are_added(sent: nat, received: nat)
    requires
        sent <= i64::MAX,
        received <= i64::MAX,
    ensures
        socket_bytes(Some(decimal(sent)), Some(decimal(received))) == sent + received,
        socket_bytes(Some(decimal(sent)), None) == sent,
        socket_bytes(None, Some(decimal(received))) == received,
        socket_bytes(None, None) == 0,
{
    written_numbers_read_back(sent);
    written_numbers_read_back(received);
}

/// What SSH wrote to its error output is given after the name of the server: at most its first 300
/// characters, without white space around it; where it wrote nothing, that is said.
pub proof fn ssh_errors_are_cut(stderr: Seq<char>, user: Seq<char>, host: Seq<char>)
    ensures
        ({
            let head = "SSH 返回失败 ("@ + user + "@"@ + host + "): "@;
            &&& trim(stderr).len() == 0 ==> ssh_error(stderr, user, host) == head
                + "无 stderr 输出"@
            &&& 1 <= trim(stderr).len() <= 300 ==> ssh_error(stderr, user, host) == head + trim(
                stderr,
            )
            &&& trim(stderr).len() > 300 ==> ssh_error(stderr, user, host) == head + trim(
                stderr,
            ).take(300)
        }),
{
}

/// The servers to read from are those of the list where there is one, else the single one where it is
/// given, else none.
pub proof fn lists_go_before_the_single_server(s: SshSettings)
    ensures
        s.hosts@.len() == 0 && s.host@.len() == 0 ==> targets_by(s).len() == 0,
        s.hosts@.len() == 0 && s.host@.len() > 0 ==> targets_by(s).len() == 1
            && targets_by(s)[0].host == s.host@ && targets_by(s)[0].port == s.port@
            && targets_by(s)[0].user == s.user@,
        s.hosts@.len() > 0 ==> targets_by(s) == listed_targets(
            split(s.hosts@, CharSet::One(',')),
            split(s.ports@, CharSet::One(',')),
            split(s.users@, CharSet::One(',')),
            split(s.hosts@, CharSet::One(',')).len() as int,
        ),
{
}

/// One more host of the list: where it is not blank it is read from, by the port and the user that
/// stand at its place in their lists, or by port 22 and as `root` where none stands there. A blank
/// one is passed over, with what stands at its place.
pub proof fn one_more_listed_host(
    hosts: Seq<Seq<char>>,
    ports: Seq<Seq<char>>,
    users: Seq<Seq<char>>,
    n: int,
)
    requires
        0 <= n < hosts.len(),
    ensures
        listed_targets(hosts, ports, users, 0).len() == 0,
        trim(hosts[n]).len() == 0 ==> listed_targets(hosts, ports, users, n + 1) == listed_targets(
            hosts,
            ports,
            users,
            n,
        ),
        trim(hosts[n]).len() > 0 ==> {
            let all = listed_targets(hosts, ports, users, n + 1);
            &&& all.len() == listed_targets(hosts, ports, users, n).len() + 1
            &&& all.drop_last() == listed_targets(hosts, ports, users, n)
            &&& all.last().host == trim(hosts[n])
            &&& n < ports.len() ==> all.last().port == trim(ports[n])
            &&& n >= ports.len() ==> all.last().port == trim("22"@)
            &&& n < users.len() ==> all.last().user == trim(users[n])
            &&& n >= users.len() ==> all.last().user == trim("root"@)
        },
{
    if trim(hosts[n]).len() > 0 {
        assert(listed_targets(hosts, ports, users, n + 1).drop_last() =~= listed_targets(
            hosts,
            ports,
            users,
            n,
        ));
    }
}

/// A setting that is a number of 32 bits gives that many lines; without a setting, and with one that
/// is no number or too large, ten thousand are read.
pub proof fn tail_lines_are_read_from_settings(n: nat, other: Seq<char>)
    requires
        unsigned_in(other) is None,
    ensures
        n <= u32::MAX ==> tail_lines_by(Some(decimal(n))) == n,
        n > u32::MAX ==> tail_lines_by(Some(decimal(n))) == 10000,
        tail_lines_by(Some(other)) == 10000,
        tail_lines_by(None) == 10000,
{
    written_numbers_read_back(n);
}

/// SSH is given the port of the server, its user and host, and the command as its last argument.
pub proof fn ssh_goes_to_the_server(t: Target, strict: Seq<char>, command: Seq<char>)
    ensures
        ({
            let args = ssh_arguments_for(t, strict, command);
            &&& args.len() == 8
            &&& args[0] == "-o"@
            &&& args[1] == "StrictHostKeyChecking="@ + strict
            &&& args[2] == "-o"@
            &&& args[3] == "ConnectTimeout=10"@
            &&& args[4] == "-p"@
            &&& args[5] == t.port
            &&& args[6] == t.user + "@"@ + t.host
            &&& args[7] == command
        }),
{
}

/// The bytes of a socket are read by their own names, and no other number of the line is.
pub proof fn bytes_are_read_by_their_names(line: Seq<char>)
    ensures
        ({
            let g = regex_groups_in(r"bytes_sent:(\d+)"@, line);
            &&& g is Some && g->0.len() > 1 ==> sent_in(line) == g->0[1]
            &&& g is None ==> sent_in(line) is None
        }),
        ({
            let g = regex_groups_in(r"bytes_received:(\d+)"@, line);
            &&& g is Some && g->0.len() > 1 ==> received_in(line) == g->0[1]
            &&& g is None ==> received_in(line) is None
        }),
{
}

/// A server is asked for as many of the last lines of its log as the setting says, then for the mark,
/// then for what it has counted.
pub proof fn servers_are_asked_for_log_and_counts(n: nat)
    ensures
        remote_command_for(n) == "tail -n "@ + decimal(n)
            + " /var/log/v2ray/access.log 2>/dev/null || true; echo '===TRAFFIC_JSON==='; cat /var/log/v2ray/domain_traffic.json 2>/dev/null || echo '{}'"@,
{
}

/// What a server to read from says is what its fields hold, each under its own name.
pub proof fn targets_say_what_they_hold(t: SshTarget)
    ensures
        t.target().host == t.host@,
        t.target().port == t.port@,
        t.target().user == t.user@,
{
}

} // verus!
