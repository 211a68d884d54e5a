//! The command line: which command the arguments give, and what is printed of the answers.

use crate::json::{get, text_in, Json, JsonNumber, Tree};
use crate::nodes::{host_and_port, server_and_port, Node, NodeConfig};
use crate::text::{chars_of, decimal, opt_view, same_text, text_of, views};
use vstd::prelude::*;
use vstd::string::StringExecFns;

verus! {

// ---------------------------------------------------------------------------
// Commands
// ---------------------------------------------------------------------------

/// What the arguments ask for. A command that needs a name or an action has it, or `None` where it
/// was left out.
pub enum CliCommand {
    Help,
    Server,
    Daemon,
    Analyzer,
    Status,
    Singbox(Option<String>),
    NodeList,
    NodeSwitch(Option<String>),
    NodeDelete(Option<String>),
    /// The arguments after `node add`.
    NodeAdd(Vec<String>),
}

/// What the arguments ask for.
pub enum Asked {
    Help,
    Server,
    Daemon,
    Analyzer,
    Status,
    Singbox(Option<Seq<char>>),
    NodeList,
    NodeSwitch(Option<Seq<char>>),
    NodeDelete(Option<Seq<char>>),
    NodeAdd(Seq<Seq<char>>),
}

impl CliCommand {
    pub open spec fn asked(self) -> Asked {
        match self {
            CliCommand::Help => Asked::Help,
            CliCommand::Server => Asked::Server,
            CliCommand::Daemon => Asked::Daemon,
            CliCommand::Analyzer => Asked::Analyzer,
            CliCommand::Status => Asked::Status,
            CliCommand::Singbox(a) => Asked::Singbox(opt_view(a)),
            CliCommand::NodeList => Asked::NodeList,
            CliCommand::NodeSwitch(n) => Asked::NodeSwitch(opt_view(n)),
            CliCommand::NodeDelete(n) => Asked::NodeDelete(opt_view(n)),
            CliCommand::NodeAdd(args) => Asked::NodeAdd(views(args@)),
        }
    }
}

/// The argument at index `i`, if there is one.
pub open spec fn arg(args: Seq<Seq<char>>, i: int) -> Option<Seq<char>> {
    if i < args.len() {
        Some(args[i])
    } else {
        None
    }
}

/// What the arguments ask for; the first one is the name of the program.
pub open spec fn asked_by(args: Seq<Seq<char>>) -> Asked {
    if args.len() < 2 {
        Asked::Help
    } else if args[1] == "server"@ {
        Asked::Server
    } else if args[1] == "daemon"@ {
        Asked::Daemon
    } else if args[1] == "v2ray-traffic"@ {
        Asked::Analyzer
    } else if args[1] == "status"@ {
        Asked::Status
    } else if args[1] == "singbox"@ || args[1] == "sing-box"@ {
        Asked::Singbox(arg(args, 2))
    } else if args[1] == "node"@ && args.len() > 2 {
        if args[2] == "list"@ {
            Asked::NodeList
        } else if args[2] == "switch"@ {
            Asked::NodeSwitch(arg(args, 3))
        } else if args[2] == "delete"@ {
            Asked::NodeDelete(arg(args, 3))
        } else if args[2] == "add"@ {
            Asked::NodeAdd(args.skip(3))
        } else {
            Asked::Help
        }
    } else {
        Asked::Help
    }
}

fn arg_at(args: &Vec<String>, i: usize) -> (r: Option<String>)
    ensures
        opt_view(r) == arg(views(args@), i as int),
{
    if i < args.len() {
        Some(args[i].clone())
    } else {
        None
    }
}

/// What the arguments ask for; the first one is the name of the program.
pub fn parse_command(args: &Vec<String>) -> (r: CliCommand)
    ensures
        r.asked() == asked_by(views(args@)),
{
    let ghost all = views(args@);
    if args.len() < 2 {
        return CliCommand::Help;
    }
    assert(all[1] == args@[1]@);
    let first = args[1].as_str();
    if same_text(first, "server") {
        return CliCommand::Server;
    }
    if same_text(first, "daemon") {
        return CliCommand::Daemon;
    }
    if same_text(first, "v2ray-traffic") {
        return CliCommand::Analyzer;
    }
    if same_text(first, "status") {
        return CliCommand::Status;
    }
    if same_text(first, "singbox") || same_text(first, "sing-box") {
        return CliCommand::Singbox(arg_at(args, 2));
    }
    if !same_text(first, "node") || args.len() < 3 {
        return CliCommand::Help;
    }
    assert(all[2] == args@[2]@);
    let second = args[2].as_str();
    if same_text(second, "list") {
        return CliCommand::NodeList;
    }
    if same_text(second, "switch") {
        return CliCommand::NodeSwitch(arg_at(args, 3));
    }
    if same_text(second, "delete") {
        return CliCommand::NodeDelete(arg_at(args, 3));
    }
    if same_text(second, "add") {
        let mut rest: Vec<String> = Vec::new();
        for i in 3..args.len()
            invariant
                args@.len() >= 3,
                rest@ == args@.subrange(3, i as int),
        {
            rest.push(args[i].clone());
            assert(rest@ =~= args@.subrange(3, i as int + 1));
        }
        assert(views(rest@) =~= all.skip(3));
        return CliCommand::NodeAdd(rest);
    }
    CliCommand::Help
}

// ---------------------------------------------------------------------------
// Answers of the daemon
// ---------------------------------------------------------------------------

/// The text in a field, empty where there is none.
pub open spec fn text_or_empty(t: Tree, key: Seq<char>) -> Seq<char> {
    match text_in(t, key) {
        Some(s) => s,
        None => Seq::empty(),
    }
}

/// The truth value in a field, false where there is none.
pub open spec fn is_true(t: Tree, key: Seq<char>) -> bool {
    get(t, key) == Some(Tree::Bool(true))
}

/// The integer in a field, zero where there is none that is an `i64`.
pub open spec fn integer_or_zero(t: Tree, key: Seq<char>) -> int {
    match get(t, key) {
        Some(Tree::Number(JsonNumber::Unsigned(n))) => if n <= i64::MAX {
            n as int
        } else {
            0
        },
        Some(Tree::Number(JsonNumber::Signed(n))) => n as int,
        _ => 0,
    }
}

fn text_of_field(j: &Json, key: &str) -> (r: String)
    ensures
        r@ == text_or_empty(j.tree(), key@),
{
    match j.text_at(key) {
        Some(s) => s.clone(),
        None => String::new(),
    }
}

fn truth_of_field(j: &Json, key: &str) -> (r: bool)
    ensures
        r == is_true(j.tree(), key@),
{
    match j.get(key) {
        Some(Json::Bool(b)) => *b,
        _ => false,
    }
}

fn integer_of_field(j: &Json, key: &str) -> (r: i64)
    ensures
        r == integer_or_zero(j.tree(), key@),
{
    match j.get(key) {
        Some(Json::Number(JsonNumber::Unsigned(n))) => if *n <= 0x7fff_ffff_ffff_ffff {
            *n as i64
        } else {
            0
        },
        Some(Json::Number(JsonNumber::Signed(n))) => *n,
        _ => 0,
    }
}

/// What is printed of the answer to a command.
pub open spec fn reply_line_for(answer: Tree) -> Seq<char> {
    let message = text_or_empty(answer, "message"@);
    if is_true(answer, "success"@) {
        "🟢 成功: "@ + message
    } else {
        "🔴 失败: "@ + message
    }
}

/// What is printed of the answer to a command.
pub fn reply_line(answer: &Json) -> (r: String)
    ensures
        r@ == reply_line_for(answer.tree()),
{
    let message = text_of_field(answer, "message");
    if truth_of_field(answer, "success") {
        "🟢 成功: ".to_owned().concat(message.as_str())
    } else {
        "🔴 失败: ".to_owned().concat(message.as_str())
    }
}

/// What the daemon says of itself.
pub struct LocalStatus {
    pub device_name: String,
    pub current_node: String,
    pub singbox_online: bool,
    pub nas_connected: bool,
    pub total_download: i64,
    pub total_upload: i64,
    pub nas_server_url: String,
}

/// Reads what the daemon says of itself; what it leaves out is empty, false or zero.
pub fn read_status(answer: &Json) -> (r: LocalStatus)
    ensures
        ({
            let t = answer.tree();
            &&& r.device_name@ == text_or_empty(t, "device_name"@)
            &&& r.current_node@ == text_or_empty(t, "current_node"@)
            &&& r.singbox_online == is_true(t, "singbox_online"@)
            &&& r.nas_connected == is_true(t, "nas_connected"@)
            &&& r.total_download == integer_or_zero(t, "singbox_total_download"@)
            &&& r.total_upload == integer_or_zero(t, "singbox_total_upload"@)
            &&& r.nas_server_url@ == text_or_empty(t, "nas_server_url"@)
        }),
{
    LocalStatus {
        device_name: text_of_field(answer, "device_name"),
        current_node: text_of_field(answer, "current_node"),
        singbox_online: truth_of_field(answer, "singbox_online"),
        nas_connected: truth_of_field(answer, "nas_connected"),
        total_download: integer_of_field(answer, "singbox_total_download"),
        total_upload: integer_of_field(answer, "singbox_total_upload"),
        nas_server_url: text_of_field(answer, "nas_server_url"),
    }
}

/// The lines that are printed of a status; `download`, `upload` and `total` are the numbers of
/// gigabytes as texts.
pub open spec fn status_lines_for(
    s: LocalStatus,
    download: Seq<char>,
    upload: Seq<char>,
    total: Seq<char>,
) -> Seq<Seq<char>> {
    let rule = "========================================"@;
    seq![
        rule,
        "💻 本机设备名称: "@ + s.device_name@,
        "🌐 当前出站节点: "@ + s.current_node@,
        "⚙️  sing-box 状态: "@ + if s.singbox_online {
            "🟢 在线"@
        } else {
            "🔴 离线 (未启动或 Clash API 端口不通)"@
        },
        "📊 累计下载流量: "@ + download + " GB"@,
        "📊 累计上传流量: "@ + upload + " GB"@,
        "📊 累计消耗总量: "@ + total + " GB"@,
        "📦 NAS 大盘状态: "@ + (if s.nas_connected {
            "🟢 已连接"@
        } else {
            "🔴 连接失败"@
        }) + " ("@ + s.nas_server_url@ + ")"@,
        rule,
    ]
}

/// The lines that are printed of a status; `download`, `upload` and `total` are the numbers of
/// gigabytes as texts.
pub fn status_lines(s: &LocalStatus, download: &str, upload: &str, total: &str) -> (r: Vec<String>)
    ensures
        views(r@) == status_lines_for(*s, download@, upload@, total@),
{
    let online = if s.singbox_online {
        "🟢 在线"
    } else {
        "🔴 离线 (未启动或 Clash API 端口不通)"
    };
    let connected = if s.nas_connected {
        "🟢 已连接"
    } else {
        "🔴 连接失败"
    };
    let mut out: Vec<String> = Vec::new();
    out.push("========================================".to_owned());
    out.push("💻 本机设备名称: ".to_owned().concat(s.device_name.as_str()));
    out.push("🌐 当前出站节点: ".to_owned().concat(s.current_node.as_str()));
    out.push("⚙️  sing-box 状态: ".to_owned().concat(online));
    out.push("📊 累计下载流量: ".to_owned().concat(download).concat(" GB"));
    out.push("📊 累计上传流量: ".to_owned().concat(upload).concat(" GB"));
    out.push("📊 累计消耗总量: ".to_owned().concat(total).concat(" GB"));
    out.push(
        "📦 NAS 大盘状态: ".to_owned().concat(connected).concat(" (").concat(
            s.nas_server_url.as_str(),
        ).concat(")"),
    );
    out.push("========================================".to_owned());
    assert(views(out@) =~= status_lines_for(*s, download@, upload@, total@));
    out
}

/// The text with spaces after it up to `width` characters.
pub open spec fn padded(s: Seq<char>, width: int) -> Seq<char> {
    if s.len() >= width {
        s
    } else {
        s + Seq::new((width - s.len()) as nat, |i: int| ' ')
    }
}

fn pad(s: &str, width: usize) -> (r: String)
    ensures
        r@ == padded(s@, width as int),
{
    let mut v = chars_of(s);
    while v.len() < width
        invariant
            s@.len() <= v@.len(),
            v@.len() <= width || v@ == s@,
            v@.take(s@.len() as int) == s@,
            forall|i: int| s@.len() <= i < v@.len() ==> v@[i] == ' ',
        decreases width - v@.len(),
    {
        let ghost before = v@;
        v.push(' ');
        assert(v@.take(s@.len() as int) =~= before.take(s@.len() as int));
    }
    assert(v@ =~= padded(s@, width as int)) by {
        assert(forall|i: int| 0 <= i < s@.len() ==> v@[i] == v@.take(s@.len() as int)[i]);
    }
    text_of(v.as_slice())
}

/// The line that is printed of a node; the one in use is marked.
pub open spec fn node_line_for(node: Node, current: Seq<char>) -> Seq<char> {
    " "@ + (if node.name == current {
        "*"@
    } else {
        " "@
    }) + " "@ + padded(node.name, 14) + " | "@ + padded(
        server_and_port(node.server, node.port),
        22,
    ) + " | "@ + match node.server_name {
        Some(s) => s,
        None => "-"@,
    }
}

/// The line that is printed of a node; the one in use is marked.
pub fn node_line(node: &NodeConfig, current: &str) -> (r: String)
    ensures
        r@ == node_line_for(node.node(), current@),
{
    let mark = if same_text(node.name.as_str(), current) {
        "*"
    } else {
        " "
    };
    let name = pad(node.name.as_str(), 14);
    let server = host_and_port(node.server.as_str(), node.server_port);
    let place = pad(server.as_str(), 22);
    let start = " ".to_owned().concat(mark).concat(" ").concat(name.as_str()).concat(" | ").concat(
        place.as_str(),
    ).concat(" | ");
    match &node.server_name {
        Some(s) => start.concat(s.as_str()),
        None => start.concat("-"),
    }
}

// ---------------------------------------------------------------------------
// What holds of all command lines and answers
// ---------------------------------------------------------------------------

/// A command goes by the first argument after the name of the program, and one about nodes by the
/// second; what follows is handed on or passed over. Anything else asks for help.
pub proof fn commands_go_by_their_words(
    program: Seq<char>,
    name: Seq<char>,
    rest: Seq<Seq<char>>,
    other: Seq<char>,
)
    requires
        other != "server"@ && other != "daemon"@ && other != "v2ray-traffic"@ && other != "status"@
            && other != "singbox"@ && other != "sing-box"@ && other != "node"@ && other != "list"@
            && other != "switch"@ && other != "delete"@ && other != "add"@,
    ensures
        asked_by(Seq::empty()) == Asked::Help,
        asked_by(seq![program]) == Asked::Help,
        asked_by(seq![program, "server"@] + rest) == Asked::Server,
        asked_by(seq![program, "daemon"@] + rest) == Asked::Daemon,
        asked_by(seq![program, "v2ray-traffic"@] + rest) == Asked::Analyzer,
        asked_by(seq![program, "status"@] + rest) == Asked::Status,
        asked_by(seq![program, "singbox"@]) == Asked::Singbox(None),
        asked_by(seq![program, "singbox"@, name] + rest) == Asked::Singbox(Some(name)),
        asked_by(seq![program, "sing-box"@, name] + rest) == Asked::Singbox(Some(name)),
        asked_by(seq![program, "node"@]) == Asked::Help,
        asked_by(seq![program, "node"@, "list"@] + rest) == Asked::NodeList,
        asked_by(seq![program, "node"@, "switch"@]) == Asked::NodeSwitch(None),
        asked_by(seq![program, "node"@, "switch"@, name] + rest) == Asked::NodeSwitch(Some(name)),
        asked_by(seq![program, "node"@, "delete"@]) == Asked::NodeDelete(None),
        asked_by(seq![program, "node"@, "delete"@, name] + rest) == Asked::NodeDelete(Some(name)),
        asked_by(seq![program, "node"@, "add"@] + rest) == Asked::NodeAdd(rest),
        asked_by(seq![program, "node"@, other] + rest) == Asked::Help,
        asked_by(seq![program, other] + rest) == Asked::Help,
{
    lemma_command_words_differ();
    assert((seq![program, "node"@, "add"@] + rest).skip(3) =~= rest);
}

/// The words for commands differ from each other.
proof fn lemma_command_words_differ()
    ensures
        "server"@ != "daemon"@,
        "v2ray-traffic"@ != "server"@ && "v2ray-traffic"@ != "daemon"@,
        "status"@ != "server"@ && "status"@ != "daemon"@ && "status"@ != "v2ray-traffic"@,
        "singbox"@ != "server"@ && "singbox"@ != "daemon"@ && "singbox"@ != "v2ray-traffic"@
            && "singbox"@ != "status"@,
        "sing-box"@ != "server"@ && "sing-box"@ != "daemon"@ && "sing-box"@ != "v2ray-traffic"@
            && "sing-box"@ != "status"@,
        "node"@ != "server"@ && "node"@ != "daemon"@ && "node"@ != "v2ray-traffic"@ && "node"@
            != "status"@ && "node"@ != "singbox"@ && "node"@ != "sing-box"@,
        "switch"@ != "list"@,
        "delete"@ != "list"@ && "delete"@ != "switch"@,
        "add"@ != "list"@ && "add"@ != "switch"@ && "add"@ != "delete"@,
{
    reveal_strlit("server");
    reveal_strlit("daemon");
    reveal_strlit("v2ray-traffic");
    reveal_strlit("status");
    reveal_strlit("singbox");
    reveal_strlit("sing-box");
    reveal_strlit("node");
    reveal_strlit("list");
    reveal_strlit("switch");
    reveal_strlit("delete");
    reveal_strlit("add");
    assert("server"@[0] == 's' && "daemon"@[0] == 'd' && "status"@[0] == 's' && "node"@[0] == 'n');
    assert("server"@[1] == 'e' && "status"@[1] == 't');
    assert("server"@.len() == 6 && "daemon"@.len() == 6 && "v2ray-traffic"@.len() == 13
        && "status"@.len() == 6 && "singbox"@.len() == 7 && "sing-box"@.len() == 8
        && "node"@.len() == 4);
    assert("list"@.len() == 4 && "switch"@.len() == 6 && "delete"@.len() == 6 && "add"@.len() == 3);
    assert("switch"@[0] == 's' && "delete"@[0] == 'd');
}

/// What is read of an answer: a text that is there, else nothing; a truth value only where it is
/// true; an integer that fits, else zero.
pub proof fn missing_fields_read_as_nothing(t: Tree, key: Seq<char>, s: Seq<char>, n: u64, m: i64)
    ensures
        get(t, key) == Some(Tree::Text(s)) ==> text_or_empty(t, key) == s,
        get(t, key) is None ==> text_or_empty(t, key).len() == 0 && !is_true(t, key)
            && integer_or_zero(t, key) == 0,
        get(t, key) == Some(Tree::Bool(true)) ==> is_true(t, key),
        get(t, key) == Some(Tree::Bool(false)) ==> !is_true(t, key),
        get(t, key) == Some(Tree::Number(JsonNumber::Unsigned(n))) && n <= i64::MAX
            ==> integer_or_zero(t, key) == n,
        get(t, key) == Some(Tree::Number(JsonNumber::Signed(m))) ==> integer_or_zero(t, key) == m,
{
}

/// The line that is printed of an answer begins with its outcome and goes on with its message.
pub proof fn replies_show_their_outcome(answer: Tree, message: Seq<char>)
    requires
        get(answer, "message"@) == Some(Tree::Text(message)),
    ensures
        get(answer, "success"@) == Some(Tree::Bool(true)) ==> reply_line_for(answer)
            == "🟢 成功: "@ + message,
        get(answer, "success"@) != Some(Tree::Bool(true)) ==> reply_line_for(answer)
            == "🔴 失败: "@ + message,
{
}

/// A text that is padded begins with the text, is as wide as is asked or as the text is, and has
/// nothing but blanks after it.
pub proof fn padding_is_blank(s: Seq<char>, width: int)
    ensures
        padded(s, width).len() == if s.len() < width {
            width
        } else {
            s.len() as int
        },
        padded(s, width).take(s.len() as int) == s,
        forall|i: int| s.len() <= i < padded(s, width).len() ==> #[trigger] padded(s, width)[i]
            == ' ',
{
    assert(padded(s, width).take(s.len() as int) =~= s);
}

/// The line of a node bears a star where the node is the one in use, and a blank where it is not;
/// then come its name, its server with its port, and its server name or a hyphen.
pub proof fn node_lines_mark_the_node_in_use(node: Node, current: Seq<char>)
    ensures
        node_line_for(node, current) == " "@ + (if node.name == current {
            "*"@
        } else {
            " "@
        }) + " "@ + padded(node.name, 14) + " | "@ + padded(
            node.server + ":"@ + decimal(node.port as nat),
            22,
        ) + " | "@ + (if node.server_name is Some {
            node.server_name->0
        } else {
            "-"@
        }),
{
}

/// The lines of a status say in turn the device, the node in use, whether the proxy is online, the
/// three numbers, and whether the server is reached and where; a rule stands before and after them.
pub proof fn status_lines_stand_in_turn(
    s: LocalStatus,
    download: Seq<char>,
    upload: Seq<char>,
    total: Seq<char>,
)
    ensures
        ({
            let r = status_lines_for(s, download, upload, total);
            &&& r.len() == 9
            &&& r[0] == "========================================"@
            &&& r[1] == "💻 本机设备名称: "@ + s.device_name@
            &&& r[2] == "🌐 当前出站节点: "@ + s.current_node@
            &&& s.singbox_online ==> r[3] == "⚙️  sing-box 状态: "@ + "🟢 在线"@
            &&& !s.singbox_online ==> r[3] == "⚙️  sing-box 状态: "@
                + "🔴 离线 (未启动或 Clash API 端口不通)"@
            &&& r[4] == "📊 累计下载流量: "@ + download + " GB"@
            &&& r[5] == "📊 累计上传流量: "@ + upload + " GB"@
            &&& r[6] == "📊 累计消耗总量: "@ + total + " GB"@
            &&& s.nas_connected ==> r[7] == "📦 NAS 大盘状态: "@ + "🟢 已连接"@ + " ("@
                + s.nas_server_url@ + ")"@
            &&& !s.nas_connected ==> r[7] == "📦 NAS 大盘状态: "@ + "🔴 连接失败"@ + " ("@
                + s.nas_server_url@ + ")"@
            &&& r[8] == "========================================"@
        }),
{
}

} // verus!
