//! The nodes that a device can go out through.

use crate::ip::{is_ip, is_ip_address};
use crate::json::{Json, Tree};
use crate::text::{
    as_u16, chars_of, decimal, decimal_text, opt_view, parse_u16, same_text, unsigned_in, views,
    written_numbers_read_back,
};
use vstd::prelude::*;
use vstd::string::StringExecFns;

verus! {

// ---------------------------------------------------------------------------
// The list of nodes
// ---------------------------------------------------------------------------

/// A node that a device can go out through.
#[derive(Debug)]
pub struct NodeConfig {
    pub name: String,
    pub server: String,
    pub server_port: u16,
    pub password: Option<String>,
    pub server_name: Option<String>,
    /// The whole outbound, where the fields above do not say enough.
    pub outbound: Option<Json>,
}

/// A node that is to be added, or to take the place of the one with its name.
#[derive(Debug)]
pub struct AddNodeRequest {
    pub name: String,
    pub server: String,
    pub server_port: u16,
    pub password: Option<String>,
    pub server_name: Option<String>,
    pub outbound: Option<Json>,
}

/// The name of the node that is to be used.
#[derive(Debug)]
pub struct SwitchNodeRequest {
    pub name: String,
}

/// What the settings of a node say.
pub struct Node {
    pub name: Seq<char>,
    pub server: Seq<char>,
    pub port: u16,
    pub password: Option<Seq<char>>,
    pub server_name: Option<Seq<char>>,
    pub outbound: Option<Tree>,
}

pub open spec fn opt_tree(j: Option<Json>) -> Option<Tree> {
    match j {
        Some(v) => Some(v.tree()),
        None => None,
    }
}

impl NodeConfig {
    pub open spec fn node(self) -> Node {
        Node {
            name: self.name@,
            server: self.server@,
            port: self.server_port,
            password: opt_view(self.password),
            server_name: opt_view(self.server_name),
            outbound: opt_tree(self.outbound),
        }
    }
}

impl AddNodeRequest {
    pub open spec fn node(self) -> Node {
        Node {
            name: self.name@,
            server: self.server@,
            port: self.server_port,
            password: opt_view(self.password),
            server_name: opt_view(self.server_name),
            outbound: opt_tree(self.outbound),
        }
    }
}

/// What a list of nodes says.
pub open spec fn nodes_of(s: Seq<NodeConfig>) -> Seq<Node> {
    s.map_values(|n: NodeConfig| n.node())
}

/// The index of the first node with the given name.
pub open spec fn node_index(nodes: Seq<Node>, name: Seq<char>) -> Option<int>
    decreases nodes.len(),
{
    if nodes.len() == 0 {
        None
    } else {
        match node_index(nodes.drop_last(), name) {
            Some(i) => Some(i),
            None => if nodes.last().name == name {
                Some(nodes.len() - 1)
            } else {
                None
            },
        }
    }
}

pub proof fn lemma_node_index(nodes: Seq<Node>, name: Seq<char>)
    ensures
        match node_index(nodes, name) {
            Some(i) => 0 <= i < nodes.len() && nodes[i].name == name && forall|j: int|
                0 <= j < i ==> (#[trigger] nodes[j]).name != name,
            None => forall|j: int| 0 <= j < nodes.len() ==> (#[trigger] nodes[j]).name != name,
        },
    decreases nodes.len(),
{
    if nodes.len() > 0 {
        lemma_node_index(nodes.drop_last(), name);
        assert(forall|j: int|
            0 <= j < nodes.len() - 1 ==> nodes.drop_last()[j] == #[trigger] nodes[j]);
    }
}

/// The index of the first node with the given name.
pub fn find_node(nodes: &Vec<NodeConfig>, name: &str) -> (r: Option<usize>)
    ensures
        match r {
            Some(i) => i < nodes@.len() && node_index(nodes_of(nodes@), name@) == Some(i as int),
            None => node_index(nodes_of(nodes@), name@) is None,
        },
{
    proof {
        lemma_node_index(nodes_of(nodes@), name@);
    }
    for i in 0..nodes.len()
        invariant
            forall|j: int| 0 <= j < i ==> (#[trigger] nodes_of(nodes@)[j]).name != name@,
            match node_index(nodes_of(nodes@), name@) {
                Some(k) => 0 <= k < nodes@.len() && nodes_of(nodes@)[k].name == name@ && forall|
                    j: int,
                | 0 <= j < k ==> (#[trigger] nodes_of(nodes@)[j]).name != name@,
                None => forall|j: int|
                    0 <= j < nodes@.len() ==> (#[trigger] nodes_of(nodes@)[j]).name != name@,
            },
    {
        assert(nodes_of(nodes@)[i as int].name == nodes@[i as int].name@);
        if same_text(nodes[i].name.as_str(), name) {
            return Some(i);
        }
    }
    None
}

/// The list after a node is added, or has taken the place of the first one with its name.
pub open spec fn with_node(nodes: Seq<Node>, node: Node) -> Seq<Node> {
    match node_index(nodes, node.name) {
        Some(i) => nodes.update(i, node),
        None => nodes.push(node),
    }
}

/// Adds a node, or puts it in the place of the first one with its name, and says so.
pub fn add_local_node(nodes: &mut Vec<NodeConfig>, request: AddNodeRequest) -> (r: String)
    ensures
        nodes_of(final(nodes)@) == with_node(nodes_of(old(nodes)@), request.node()),
        r@ == "成功添加/修改本地节点 '"@ + request.name@ + "'"@,
{
    let message = "成功添加/修改本地节点 '".to_owned().concat(request.name.as_str()).concat("'");
    let place = find_node(nodes, request.name.as_str());
    let ghost added = request.node();
    let node = NodeConfig {
        name: request.name,
        server: request.server,
        server_port: request.server_port,
        password: request.password,
        server_name: request.server_name,
        outbound: request.outbound,
    };
    match place {
        Some(i) => {
            nodes.set(i, node);
            assert(nodes_of(nodes@) =~= nodes_of(old(nodes)@).update(i as int, added));
        },
        None => {
            nodes.push(node);
            assert(nodes_of(nodes@) =~= nodes_of(old(nodes)@).push(added));
        },
    }
    message
}

/// The nodes that do not have the given name.
pub open spec fn without_node(nodes: Seq<Node>, name: Seq<char>) -> Seq<Node> {
    nodes.filter(|n: Node| n.name != name)
}

/// Takes away all nodes with the given name, and says whether there were any.
pub fn delete_local_node(nodes: &mut Vec<NodeConfig>, name: &str) -> (r: bool)
    ensures
        nodes_of(final(nodes)@) == without_node(nodes_of(old(nodes)@), name@),
        r == node_index(nodes_of(old(nodes)@), name@) is Some,
{
    let ghost all = nodes_of(nodes@);
    let ghost keep = |n: Node| n.name != name@;
    let found = find_node(nodes, name).is_some();
    let ghost mut i: int = 0;
    let mut k: usize = 0;
    proof {
        assert(all.take(0).filter(keep) =~= Seq::<Node>::empty()) by {
            reveal(Seq::filter);
        }
        assert(all.take(0).filter(keep) + all.skip(0) =~= all);
    }
    while k < nodes.len()
        invariant
            0 <= i <= all.len(),
            keep == (|n: Node| n.name != name@),
            k == all.take(i).filter(keep).len(),
            nodes_of(nodes@) == all.take(i).filter(keep) + all.skip(i),
        decreases all.len() - i,
    {
        let ghost kept = all.take(i).filter(keep);
        let ghost before = nodes@;
        assert(nodes_of(nodes@).len() == kept.len() + all.len() - i);
        assert(nodes_of(nodes@)[k as int] == all[i]);
        proof {
            let past = all.take(i + 1);
            assert(past.drop_last() =~= all.take(i));
            assert(past.last() == all[i]);
            reveal(Seq::filter);
        }
        if same_text(nodes[k].name.as_str(), name) {
            nodes.remove(k);
            assert(nodes_of(nodes@) =~= nodes_of(before).remove(k as int));
            assert(nodes_of(nodes@) =~= kept + all.skip(i + 1));
        } else {
            k = k + 1;
            assert(kept + all.skip(i) =~= kept.push(all[i]) + all.skip(i + 1));
        }
        proof {
            i = i + 1;
        }
    }
    proof {
        assert(nodes_of(nodes@).len() == all.take(i).filter(keep).len() + all.len() - i);
        assert(i == all.len());
        assert(all.take(i) =~= all);
        assert(nodes_of(nodes@) =~= all.filter(keep));
    }
    found
}

/// A node that was added is found under its name with what was added, and the others stay.
pub proof fn added_node_is_found(nodes: Seq<Node>, node: Node, other: Seq<char>)
    ensures
        ({
            let after = with_node(nodes, node);
            &&& node_index(after, node.name) matches Some(i) && after[i] == node
            &&& other != node.name ==> match node_index(nodes, other) {
                Some(i) => node_index(after, other) == Some(i) && after[i] == nodes[i],
                None => node_index(after, other) is None,
            }
        }),
{
    let after = with_node(nodes, node);
    lemma_node_index(nodes, node.name);
    lemma_node_index(after, node.name);
    lemma_node_index(nodes, other);
    lemma_node_index(after, other);
    match node_index(nodes, node.name) {
        Some(i) => {
            assert(after[i] == node);
            assert(forall|j: int| 0 <= j < nodes.len() && j != i ==> after[j] == #[trigger] nodes[j]);
            assert(forall|j: int| 0 <= j < nodes.len() && j != i ==> #[trigger] after[j] == nodes[j]);
        },
        None => {
            assert(after[nodes.len() as int] == node);
            assert(forall|j: int| 0 <= j < nodes.len() ==> after[j] == #[trigger] nodes[j]);
            assert(forall|j: int| 0 <= j < nodes.len() ==> #[trigger] after[j] == nodes[j]);
        },
    }
}

/// After a name is taken away no node has it; where no node has it, nothing is taken away.
pub proof fn deleted_node_is_gone(nodes: Seq<Node>, name: Seq<char>)
    ensures
        node_index(without_node(nodes, name), name) is None,
        node_index(nodes, name) is None ==> without_node(nodes, name) == nodes,
    decreases nodes.len(),
{
    reveal(Seq::filter);
    if nodes.len() > 0 {
        deleted_node_is_gone(nodes.drop_last(), name);
        let before = without_node(nodes.drop_last(), name);
        let after = without_node(nodes, name);
        if nodes.last().name != name {
            assert(after =~= before.push(nodes.last()));
            assert(after.drop_last() =~= before);
            if node_index(nodes, name) is None {
                assert(nodes.drop_last().push(nodes.last()) =~= nodes);
            }
        }
    } else {
        assert(without_node(nodes, name) =~= nodes);
    }
}

// ---------------------------------------------------------------------------
// The arguments of `node add`
// ---------------------------------------------------------------------------

/// What the arguments of `node add` give.
pub struct NodeArguments {
    pub name: String,
    pub server: String,
    pub port: u16,
    pub password: Option<String>,
    pub sni: Option<String>,
}

/// What is given by the arguments read so far.
#[verifier::ext_equal]
pub struct Given {
    pub name: Seq<char>,
    pub server: Seq<char>,
    pub port: u16,
    pub password: Option<Seq<char>>,
    pub sni: Option<Seq<char>>,
}

impl NodeArguments {
    pub open spec fn given(self) -> Given {
        Given {
            name: self.name@,
            server: self.server@,
            port: self.port,
            password: opt_view(self.password),
            sni: opt_view(self.sni),
        }
    }
}

pub open spec fn nothing_given() -> Given {
    Given { name: Seq::empty(), server: Seq::empty(), port: 0, password: None, sni: None }
}

pub open spec fn is_option(arg: Seq<char>) -> bool {
    arg == "--name"@ || arg == "--server"@ || arg == "--port"@ || arg == "--password"@ || arg
        == "--sni"@
}

/// The port in an argument, zero where it is not one.
pub open spec fn port_in(arg: Seq<char>) -> u16 {
    match as_u16(unsigned_in(arg)) {
        Some(n) => n,
        None => 0,
    }
}

/// After an option with its value.
pub open spec fn with_option(g: Given, option: Seq<char>, value: Seq<char>) -> Given {
    if option == "--name"@ {
        Given { name: value, ..g }
    } else if option == "--server"@ {
        Given { server: value, ..g }
    } else if option == "--port"@ {
        Given { port: port_in(value), ..g }
    } else if option == "--password"@ {
        Given { password: Some(value), ..g }
    } else if option == "--sni"@ {
        Given { sni: Some(value), ..g }
    } else {
        g
    }
}

/// After all arguments: an option takes the argument after it as its value; what is no option, and
/// an option without a value, is passed over.
pub open spec fn after_arguments(g: Given, args: Seq<Seq<char>>) -> Given
    decreases args.len(),
{
    if args.len() == 0 {
        g
    } else if is_option(args[0]) && args.len() > 1 {
        after_arguments(with_option(g, args[0], args[1]), args.skip(2))
    } else {
        after_arguments(g, args.skip(1))
    }
}

/// Reads the arguments of `node add`.
pub fn parse_node_arguments(args: &Vec<String>) -> (r: NodeArguments)
    ensures
        r.given() == after_arguments(nothing_given(), views(args@)),
{
    let mut out = NodeArguments {
        name: String::new(),
        server: String::new(),
        port: 0,
        password: None,
        sni: None,
    };
    let ghost all = views(args@);
    let mut i: usize = 0;
    proof {
        assert(all.skip(0) =~= all);
        assert(out.given() =~= nothing_given());
    }
    while i < args.len()
        invariant
            i <= args@.len(),
            all == views(args@),
            after_arguments(out.given(), all.skip(i as int)) == after_arguments(
                nothing_given(),
                all,
            ),
        decreases args@.len() - i,
    {
        let ghost rest = all.skip(i as int);
        let ghost before = out.given();
        let option = args[i].as_str();
        assert(rest[0] == option@);
        assert(rest.skip(1) =~= all.skip(i as int + 1));
        let known = same_text(option, "--name") || same_text(option, "--server") || same_text(
            option,
            "--port",
        ) || same_text(option, "--password") || same_text(option, "--sni");
        if known && args.len() - i > 1 {
            let value = args[i + 1].clone();
            assert(rest[1] == value@);
            assert(rest.skip(2) =~= all.skip(i as int + 2));
            if same_text(option, "--name") {
                out.name = value;
            } else if same_text(option, "--server") {
                out.server = value;
            } else if same_text(option, "--port") {
                let v = chars_of(value.as_str());
                out.port = match parse_u16(v.as_slice()) {
                    Some(n) => n,
                    None => 0,
                };
            } else if same_text(option, "--password") {
                out.password = Some(value);
            } else {
                out.sni = Some(value);
            }
            assert(out.given() =~= with_option(before, option@, rest[1]));
            i = i + 2;
        } else {
            i = i + 1;
        }
    }
    assert(all.skip(i as int) =~= Seq::<Seq<char>>::empty());
    out
}

/// The node that the arguments of `node add` give. A name, a server and a port other than zero are
/// needed.
pub fn node_from_arguments(args: &Vec<String>) -> (r: Option<AddNodeRequest>)
    ensures
        ({
            let g = after_arguments(nothing_given(), views(args@));
            match r {
                Some(request) => g.name.len() > 0 && g.server.len() > 0 && g.port != 0
                    && request.node() == (Node {
                    name: g.name,
                    server: g.server,
                    port: g.port,
                    password: g.password,
                    server_name: g.sni,
                    outbound: None,
                }),
                None => g.name.len() == 0 || g.server.len() == 0 || g.port == 0,
            }
        }),
{
    let a = parse_node_arguments(args);
    if a.name.as_str().is_empty() || a.server.as_str().is_empty() || a.port == 0 {
        return None;
    }
    Some(
        AddNodeRequest {
            name: a.name,
            server: a.server,
            server_port: a.port,
            password: a.password,
            server_name: a.sni,
            outbound: None,
        },
    )
}

// ---------------------------------------------------------------------------
// The node that a report names
// ---------------------------------------------------------------------------

/// How a report comes to the address of the node in use.
pub enum ReportNode {
    /// It is this text.
    Known(String),
    /// It is the first address of this server, or the server itself where none is found.
    Lookup { server: String, port: u16 },
}

/// How a report comes to the address of the node in use.
pub enum NodeAddress {
    Known(Seq<char>),
    Lookup(Seq<char>, u16),
}

impl ReportNode {
    pub open spec fn address(self) -> NodeAddress {
        match self {
            ReportNode::Known(s) => NodeAddress::Known(s@),
            ReportNode::Lookup { server, port } => NodeAddress::Lookup(server@, port),
        }
    }
}

/// The address of a server: the server itself where it is an address.
pub open spec fn server_address(server: Seq<char>, port: u16) -> NodeAddress {
    if is_ip(server) {
        NodeAddress::Known(server)
    } else {
        NodeAddress::Lookup(server, port)
    }
}

/// The address of the node in use: that of the server of the first node with its name; the name
/// itself where no node has it, or where it says that none is known.
pub open spec fn reported_node(active: Seq<char>, nodes: Seq<Node>) -> NodeAddress {
    if active == "未知"@ || active == "未配置"@ || active.len() == 0 {
        NodeAddress::Known(active)
    } else {
        match node_index(nodes, active) {
            Some(i) => server_address(nodes[i].server, nodes[i].port),
            None => NodeAddress::Known(active),
        }
    }
}

/// How a report comes to the address of the node in use.
pub fn node_for_report(active: &str, nodes: &Vec<NodeConfig>) -> (r: ReportNode)
    ensures
        r.address() == reported_node(active@, nodes_of(nodes@)),
{
    if same_text(active, "未知") || same_text(active, "未配置") || active.is_empty() {
        return ReportNode::Known(active.to_owned());
    }
    match find_node(nodes, active) {
        Some(i) => {
            let node = &nodes[i];
            assert(nodes_of(nodes@)[i as int] == node.node());
            let server = chars_of(node.server.as_str());
            if is_ip_address(server.as_slice()) {
                ReportNode::Known(node.server.clone())
            } else {
                ReportNode::Lookup { server: node.server.clone(), port: node.server_port }
            }
        },
        None => ReportNode::Known(active.to_owned()),
    }
}

/// A server and a port as one text.
pub open spec fn server_and_port(server: Seq<char>, port: u16) -> Seq<char> {
    server + ":"@ + decimal(port as nat)
}

/// A server and a port as one text.
pub fn host_and_port(server: &str, port: u16) -> (r: String)
    ensures
        r@ == server_and_port(server@, port),
{
    let digits = decimal_text(port as u128);
    server.to_owned().concat(":").concat(digits.as_str())
}

/// The address that was found for a server, or the server itself where none was.
pub fn resolved_address(server: String, found: Option<String>) -> (r: String)
    ensures
        r@ == match found {
            Some(a) => a@,
            None => server@,
        },
{
    match found {
        Some(a) => a,
        None => server,
    }
}

// ---------------------------------------------------------------------------
// What holds of all nodes and arguments
// ---------------------------------------------------------------------------

/// Taking a name away takes every node with it, and keeps all others in their order.
pub proof fn other_nodes_are_kept(nodes: Seq<Node>, name: Seq<char>, node: Node)
    ensures
        without_node(Seq::empty(), name).len() == 0,
        node.name == name ==> without_node(nodes.push(node), name) == without_node(nodes, name),
        node.name != name ==> without_node(nodes.push(node), name) == without_node(nodes, name).push(
            node,
        ),
{
    reveal(Seq::filter);
    assert(nodes.push(node).drop_last() =~= nodes);
}

/// A node that is added takes the place of the first one with its name, or comes in at the end; the
/// other places stay as they are.
pub proof fn added_nodes_have_their_place(nodes: Seq<Node>, node: Node, i: int)
    ensures
        ({
            let after = with_node(nodes, node);
            &&& (forall|j: int| 0 <= j < nodes.len() ==> (#[trigger] nodes[j]).name != node.name)
                ==> after == nodes.push(node)
            &&& 0 <= i < nodes.len() && nodes[i].name == node.name && (forall|j: int|
                0 <= j < i ==> (#[trigger] nodes[j]).name != node.name) ==> after == nodes.update(
                i,
                node,
            )
        }),
{
    lemma_node_index(nodes, node.name);
    if 0 <= i < nodes.len() && nodes[i].name == node.name && (forall|j: int|
        0 <= j < i ==> (#[trigger] nodes[j]).name != node.name) {
        let k = node_index(nodes, node.name)->0;
        if k < i {
            assert(nodes[k].name != node.name);
        }
        if i < k {
            assert(nodes[i].name != node.name);
        }
    }
}

/// An option gives what follows it, and gives it alone; a later one of the same kind takes the place
/// of an earlier one. A word that is no option is passed over, and so is an option that nothing
/// follows.
pub proof fn options_give_what_follows(
    g: Given,
    value: Seq<char>,
    other: Seq<char>,
    rest: Seq<Seq<char>>,
)
    requires
        other != "--name"@ && other != "--server"@ && other != "--port"@ && other != "--password"@
            && other != "--sni"@,
    ensures
        after_arguments(g, seq!["--name"@, value] + rest) == after_arguments(
            (Given { name: value, ..g }),
            rest,
        ),
        after_arguments(g, seq!["--server"@, value] + rest) == after_arguments(
            (Given { server: value, ..g }),
            rest,
        ),
        after_arguments(g, seq!["--port"@, value] + rest) == after_arguments(
            (Given { port: port_in(value), ..g }),
            rest,
        ),
        after_arguments(g, seq!["--password"@, value] + rest) == after_arguments(
            (Given { password: Some(value), ..g }),
            rest,
        ),
        after_arguments(g, seq!["--sni"@, value] + rest) == after_arguments(
            (Given { sni: Some(value), ..g }),
            rest,
        ),
        after_arguments(g, seq![other] + rest) == after_arguments(g, rest),
        after_arguments(g, Seq::empty()) == g,
        after_arguments(g, seq!["--name"@]) == g,
        after_arguments(g, seq!["--server"@]) == g,
        after_arguments(g, seq!["--port"@]) == g,
        after_arguments(g, seq!["--password"@]) == g,
        after_arguments(g, seq!["--sni"@]) == g,
{
    reveal_strlit("--name");
    reveal_strlit("--server");
    reveal_strlit("--port");
    reveal_strlit("--password");
    reveal_strlit("--sni");
    assert("--name"@[2] == 'n' && "--port"@[2] == 'p');
    assert("--name"@.len() == 6 && "--server"@.len() == 8 && "--port"@.len() == 6
        && "--password"@.len() == 10 && "--sni"@.len() == 5);
    assert((seq!["--name"@, value] + rest).skip(2) =~= rest);
    assert((seq!["--server"@, value] + rest).skip(2) =~= rest);
    assert((seq!["--port"@, value] + rest).skip(2) =~= rest);
    assert((seq!["--password"@, value] + rest).skip(2) =~= rest);
    assert((seq!["--sni"@, value] + rest).skip(2) =~= rest);
    assert((seq![other] + rest).skip(1) =~= rest);
    let none = Seq::<Seq<char>>::empty();
    assert(seq!["--name"@].skip(1) =~= none);
    assert(seq!["--server"@].skip(1) =~= none);
    assert(seq!["--port"@].skip(1) =~= none);
    assert(seq!["--password"@].skip(1) =~= none);
    assert(seq!["--sni"@].skip(1) =~= none);
    reveal_with_fuel(after_arguments, 2);
}

/// A port is read from its digits; what is no port counts as zero.
pub proof fn ports_are_read_from_digits(n: nat, other: Seq<char>)
    requires
        unsigned_in(other) is None,
    ensures
        n < 65536 ==> port_in(decimal(n)) == n,
        n >= 65536 ==> port_in(decimal(n)) == 0,
        port_in(other) == 0,
{
    written_numbers_read_back(n);
}

/// All options together give a node with each value in its place.
pub proof fn all_options_give_a_node(
    name: Seq<char>,
    server: Seq<char>,
    port: u16,
    password: Seq<char>,
    sni: Seq<char>,
)
    ensures
        ({
            let args = seq![
                "--name"@,
                name,
                "--server"@,
                server,
                "--port"@,
                decimal(port as nat),
                "--password"@,
                password,
                "--sni"@,
                sni,
            ];
            let g = after_arguments(nothing_given(), args);
            &&& g.name == name
            &&& g.server == server
            &&& g.port == port
            &&& g.password == Some(password)
            &&& g.sni == Some(sni)
        }),
{
    let p = decimal(port as nat);
    let none = Seq::<Seq<char>>::empty();
    let e = seq!["--sni"@, sni];
    let d = seq!["--password"@, password] + e;
    let c = seq!["--port"@, p] + d;
    let b = seq!["--server"@, server] + c;
    let a = seq!["--name"@, name] + b;
    assert(a =~= seq![
        "--name"@,
        name,
        "--server"@,
        server,
        "--port"@,
        p,
        "--password"@,
        password,
        "--sni"@,
        sni,
    ]);
    assert(e =~= seq!["--sni"@, sni] + none);
    let word = Seq::<char>::empty();
    ports_are_read_from_digits(port as nat, word);
    reveal_strlit("--name");
    reveal_strlit("--server");
    reveal_strlit("--port");
    reveal_strlit("--password");
    reveal_strlit("--sni");
    let g0 = nothing_given();
    options_give_what_follows(g0, name, word, b);
    let g1 = Given { name, ..g0 };
    options_give_what_follows(g1, server, word, c);
    let g2 = Given { server, ..g1 };
    options_give_what_follows(g2, p, word, d);
    let g3 = Given { port: port_in(p), ..g2 };
    options_give_what_follows(g3, password, word, e);
    let g4 = Given { password: Some(password), ..g3 };
    options_give_what_follows(g4, sni, word, none);
}

/// A report names the server of the node in use: as it is where it is an address, else to be looked
/// up with the node's port. A name that no node has is named as it is, and so is the word for no
/// known node.
pub proof fn reports_name_the_server_of_the_node(active: Seq<char>, nodes: Seq<Node>, i: int)
    ensures
        active.len() == 0 || active == "未知"@ || active == "未配置"@ ==> reported_node(active, nodes)
            == NodeAddress::Known(active),
        (forall|j: int| 0 <= j < nodes.len() ==> (#[trigger] nodes[j]).name != active)
            ==> reported_node(active, nodes) == NodeAddress::Known(active),
        active.len() > 0 && active != "未知"@ && active != "未配置"@ && 0 <= i < nodes.len()
            && nodes[i].name == active && (forall|j: int|
            0 <= j < i ==> (#[trigger] nodes[j]).name != active) ==> {
            &&& is_ip(nodes[i].server) ==> reported_node(active, nodes) == NodeAddress::Known(
                nodes[i].server,
            )
            &&& !is_ip(nodes[i].server) ==> reported_node(active, nodes) == NodeAddress::Lookup(
                nodes[i].server,
                nodes[i].port,
            )
        },
{
    lemma_node_index(nodes, active);
    if 0 <= i < nodes.len() && nodes[i].name == active && (forall|j: int|
        0 <= j < i ==> (#[trigger] nodes[j]).name != active) {
        let k = node_index(nodes, active)->0;
        if k < i {
            assert(nodes[k].name != active);
        }
        if i < k {
            assert(nodes[i].name != active);
        }
    }
}

/// What a node says is what its fields hold, each under its own name, whether it is kept or is to be
/// added; and so it is with what arguments give.
pub proof fn nodes_say_what_they_hold(n: NodeConfig, r: AddNodeRequest, a: NodeArguments)
    ensures
        n.node().name == n.name@,
        n.node().server == n.server@,
        n.node().port == n.server_port,
        n.node().password == opt_view(n.password),
        n.node().server_name == opt_view(n.server_name),
        n.node().outbound == opt_tree(n.outbound),
        r.node().name == r.name@,
        r.node().server == r.server@,
        r.node().port == r.server_port,
        r.node().password == opt_view(r.password),
        r.node().server_name == opt_view(r.server_name),
        r.node().outbound == opt_tree(r.outbound),
        a.given().name == a.name@,
        a.given().server == a.server@,
        a.given().port == a.port,
        a.given().password == opt_view(a.password),
        a.given().sni == opt_view(a.sni),
{
}

} // verus!
