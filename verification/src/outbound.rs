//! The parts of the proxy's configuration that say through which node it goes out, and which
//! domains go direct.

use crate::json::{
    distinct_names, field, fields, find_field, get, lemma_list_tree, lemma_object_tree,
    lemma_position, lemma_position_is, list_in, number_in, remove_field, removed_field_is_gone,
    set_field, set_field_reads_back, text_in, trees, with_field, without_field, Json, JsonNumber,
    Tree,
};
use crate::nodes::{
    find_node, host_and_port, lemma_node_index, node_index, nodes_of, server_and_port, Node,
    NodeConfig,
};
use crate::text::{decimal, opt_view, same_text, views};
use vstd::prelude::*;
use vstd::string::StringExecFns;

verus! {

/// The index of the first outbound with the given tag.
pub open spec fn tagged(outbounds: Seq<Tree>, tag: Seq<char>) -> Option<int>
    decreases outbounds.len(),
{
    if outbounds.len() == 0 {
        None
    } else {
        match tagged(outbounds.drop_last(), tag) {
            Some(i) => Some(i),
            None => if text_in(outbounds.last(), "tag"@) == Some(tag) {
                Some(outbounds.len() - 1)
            } else {
                None
            },
        }
    }
}

pub proof fn lemma_tagged(outbounds: Seq<Tree>, tag: Seq<char>)
    ensures
        match tagged(outbounds, tag) {
            Some(i) => 0 <= i < outbounds.len() && text_in(outbounds[i], "tag"@) == Some(tag)
                && forall|j: int|
                0 <= j < i ==> text_in(#[trigger] outbounds[j], "tag"@) != Some(tag),
            None => forall|j: int|
                0 <= j < outbounds.len() ==> text_in(#[trigger] outbounds[j], "tag"@) != Some(tag),
        },
    decreases outbounds.len(),
{
    if outbounds.len() > 0 {
        lemma_tagged(outbounds.drop_last(), tag);
        assert(forall|j: int|
            0 <= j < outbounds.len() - 1 ==> outbounds.drop_last()[j] == #[trigger] outbounds[j]);
    }
}

/// The index of the first outbound with the given tag.
fn find_tagged(outbounds: &Vec<Json>, tag: &str) -> (r: Option<usize>)
    ensures
        match r {
            Some(i) => i < outbounds@.len() && tagged(trees(outbounds@), tag@) == Some(i as int),
            None => tagged(trees(outbounds@), tag@) is None,
        },
{
    let ghost all = trees(outbounds@);
    proof {
        lemma_tagged(all, tag@);
    }
    for i in 0..outbounds.len()
        invariant
            all == trees(outbounds@),
            forall|j: int| 0 <= j < i ==> text_in(#[trigger] all[j], "tag"@) != Some(tag@),
            match tagged(all, tag@) {
                Some(k) => 0 <= k < all.len() && text_in(all[k], "tag"@) == Some(tag@) && forall|
                    j: int,
                | 0 <= j < k ==> text_in(#[trigger] all[j], "tag"@) != Some(tag@),
                None => forall|j: int|
                    0 <= j < all.len() ==> text_in(#[trigger] all[j], "tag"@) != Some(tag@),
            },
    {
        assert(all[i as int] == outbounds@[i as int].tree());
        if outbounds[i].text_is("tag", tag) {
            return Some(i);
        }
    }
    None
}

// ---------------------------------------------------------------------------
// The node in use
// ---------------------------------------------------------------------------

/// The server of an outbound, empty where it has none.
pub open spec fn server_of(outbound: Tree) -> Seq<char> {
    match text_in(outbound, "server"@) {
        Some(s) => s,
        None => Seq::empty(),
    }
}

/// The port of an outbound in 16 bits, zero where it has none.
pub open spec fn port_of(outbound: Tree) -> int {
    match number_in(outbound, "server_port"@) {
        Some(n) => n as int % 65536,
        None => 0,
    }
}

/// The outbound that the proxy goes out through: the one with the tag `proxy`, or where that is a
/// selector the first one with the tag that it has as its default, if there is one.
pub open spec fn used_outbound(outbounds: Seq<Tree>, i: int) -> Tree {
    let proxy = outbounds[i];
    if text_in(proxy, "type"@) == Some("selector"@) {
        match text_in(proxy, "default"@) {
            Some(tag) => match tagged(outbounds, tag) {
                Some(k) => outbounds[k],
                None => proxy,
            },
            None => proxy,
        }
    } else {
        proxy
    }
}

/// The index of the first node with the given server and port.
pub open spec fn node_at(nodes: Seq<Node>, server: Seq<char>, port: int) -> Option<int>
    decreases nodes.len(),
{
    if nodes.len() == 0 {
        None
    } else {
        match node_at(nodes.drop_last(), server, port) {
            Some(i) => Some(i),
            None => if nodes.last().server == server && nodes.last().port == port {
                Some(nodes.len() - 1)
            } else {
                None
            },
        }
    }
}

proof fn lemma_node_at(nodes: Seq<Node>, server: Seq<char>, port: int)
    ensures
        match node_at(nodes, server, port) {
            Some(i) => 0 <= i < nodes.len() && nodes[i].server == server && nodes[i].port == port
                && forall|j: int|
                0 <= j < i ==> !((#[trigger] nodes[j]).server == server && nodes[j].port == port),
            None => forall|j: int|
                0 <= j < nodes.len() ==> !((#[trigger] nodes[j]).server == server && nodes[j].port
                    == port),
        },
    decreases nodes.len(),
{
    if nodes.len() > 0 {
        lemma_node_at(nodes.drop_last(), server, port);
        assert(forall|j: int|
            0 <= j < nodes.len() - 1 ==> nodes.drop_last()[j] == #[trigger] nodes[j]);
    }
}

/// The name of the node with the given server and port, or the server and port themselves.
pub open spec fn name_of_server(nodes: Seq<Node>, server: Seq<char>, port: int) -> Seq<char> {
    match node_at(nodes, server, port) {
        Some(i) => nodes[i].name,
        None => if server.len() == 0 {
            "未知"@
        } else {
            server_and_port(server, port as u16)
        },
    }
}

/// The name of the node in use by the configuration, if there is one that could be read.
pub open spec fn active_node(config: Option<Tree>, nodes: Seq<Node>) -> Seq<char> {
    match config {
        None => "未知"@,
        Some(t) => match list_in(t, "outbounds"@) {
            None => "未知"@,
            Some(outbounds) => match tagged(outbounds, "proxy"@) {
                None => "未配置"@,
                Some(i) => {
                    let used = used_outbound(outbounds, i);
                    name_of_server(nodes, server_of(used), port_of(used))
                },
            },
        },
    }
}

/// The name of the node in use by the configuration, if there is one that could be read.
pub fn detect_active_node_tag(local_nodes: &Vec<NodeConfig>, config: Option<&Json>) -> (r: String)
    ensures
        r@ == active_node(
            match config {
                Some(j) => Some(j.tree()),
                None => None,
            },
            nodes_of(local_nodes@),
        ),
{
    let outbounds = match config {
        None => {
            return "未知".to_owned();
        },
        Some(j) => match j.list_at("outbounds") {
            None => {
                return "未知".to_owned();
            },
            Some(o) => o,
        },
    };
    let ghost all = trees(outbounds@);
    let i: usize = match find_tagged(outbounds, "proxy") {
        None => {
            return "未配置".to_owned();
        },
        Some(i) => i,
    };
    let mut used = &outbounds[i];
    assert(all[i as int] == used.tree());
    if used.text_is("type", "selector") {
        if let Some(tag) = outbounds[i].text_at("default") {
            if let Some(k) = find_tagged(outbounds, tag.as_str()) {
                used = &outbounds[k];
                assert(all[k as int] == used.tree());
            }
        }
    }
    assert(used.tree() == used_outbound(all, i as int));
    let server = match used.text_at("server") {
        Some(s) => s.clone(),
        None => String::new(),
    };
    let port: u16 = match used.number_at("server_port") {
        Some(n) => (n % 65536) as u16,
        None => 0,
    };
    let ghost nodes = nodes_of(local_nodes@);
    proof {
        lemma_node_at(nodes, server@, port as int);
    }
    for k in 0..local_nodes.len()
        invariant
            nodes == nodes_of(local_nodes@),
            forall|j: int|
                0 <= j < k ==> !((#[trigger] nodes[j]).server == server@ && nodes[j].port == port),
            match node_at(nodes, server@, port as int) {
                Some(n) => 0 <= n < nodes.len() && nodes[n].server == server@ && nodes[n].port
                    == port && forall|j: int|
                    0 <= j < n ==> !((#[trigger] nodes[j]).server == server@ && nodes[j].port
                        == port),
                None => forall|j: int|
                    0 <= j < nodes.len() ==> !((#[trigger] nodes[j]).server == server@
                        && nodes[j].port == port),
            },
            active_node(
                match config {
                    Some(j) => Some(j.tree()),
                    None => None,
                },
                nodes,
            ) == name_of_server(nodes, server@, port as int),
    {
        let node = &local_nodes[k];
        assert(nodes[k as int] == node.node());
        if same_text(node.server.as_str(), server.as_str()) && node.server_port == port {
            return node.name.clone();
        }
    }
    if server.as_str().is_empty() {
        "未知".to_owned()
    } else {
        host_and_port(server.as_str(), port)
    }
}

// ---------------------------------------------------------------------------
// Going out through another node
// ---------------------------------------------------------------------------

/// The name under which the other side of a TLS connection is to be known is set, or taken away.
pub open spec fn with_server_name(
    f: Seq<(Seq<char>, Tree)>,
    server_name: Option<Seq<char>>,
) -> Seq<(Seq<char>, Tree)> {
    match server_name {
        Some(name) => {
            let g = if field(f, "tls"@) is None {
                with_field(f, "tls"@, Tree::Object(Seq::empty()))
            } else {
                f
            };
            match field(g, "tls"@) {
                Some(Tree::Object(tls)) => with_field(
                    g,
                    "tls"@,
                    Tree::Object(with_field(tls, "server_name"@, Tree::Text(name))),
                ),
                _ => g,
            }
        },
        None => match field(f, "tls"@) {
            Some(Tree::Object(tls)) => with_field(
                f,
                "tls"@,
                Tree::Object(without_field(tls, "server_name"@)),
            ),
            _ => f,
        },
    }
}

/// The fields of an outbound that goes to the server of the node.
pub open spec fn with_server(f: Seq<(Seq<char>, Tree)>, node: Node) -> Seq<(Seq<char>, Tree)> {
    let g = with_field(
        with_field(f, "server"@, Tree::Text(node.server)),
        "server_port"@,
        Tree::Number(JsonNumber::Unsigned(node.port as u64)),
    );
    let h = match node.password {
        Some(p) => with_field(g, "password"@, Tree::Text(p)),
        None => without_field(g, "password"@),
    };
    with_server_name(h, node.server_name)
}

/// The outbound that the node gives as a whole, with the tag `proxy`.
pub open spec fn tagged_as_proxy(template: Tree) -> Tree {
    match template {
        Tree::Object(f) => Tree::Object(with_field(f, "tag"@, Tree::Text("proxy"@))),
        _ => Tree::Object(seq![("tag"@, Tree::Text("proxy"@))]),
    }
}

/// The outbound with the tag `proxy` and the fields `f`, after a switch to the node: a selector
/// gets the node as its default, another outbound gives way to the one of the node, or gets the
/// node's server.
pub open spec fn switched(f: Seq<(Seq<char>, Tree)>, node: Node) -> Tree {
    if field(f, "type"@) == Some(Tree::Text("selector"@)) {
        Tree::Object(with_field(f, "default"@, Tree::Text(node.name)))
    } else {
        match node.outbound {
            Some(template) => tagged_as_proxy(template),
            None => Tree::Object(with_server(f, node)),
        }
    }
}

/// A whole outbound can be given the tag `proxy`: it is an object, or nothing at all.
pub open spec fn takes_tag(template: Tree) -> bool {
    template is Object || template is Null
}

/// A switch to the node can be carried out: where the outbound is to give way to the one of the
/// node, that one takes the tag `proxy`.
pub open spec fn can_switch_to(config: Tree, node: Node) -> bool {
    match list_in(config, "outbounds"@) {
        Some(outbounds) => match tagged(outbounds, "proxy"@) {
            Some(i) => text_in(outbounds[i], "type"@) == Some("selector"@) || match node.outbound {
                Some(template) => takes_tag(template),
                None => true,
            },
            None => true,
        },
        None => true,
    }
}

/// The configuration after a switch to the node, or what is wrong with it.
pub open spec fn switched_config(config: Tree, node: Node) -> Result<Tree, Seq<char>> {
    match (config, list_in(config, "outbounds"@)) {
        (Tree::Object(f), Some(outbounds)) => match tagged(outbounds, "proxy"@) {
            Some(i) => Ok(
                Tree::Object(
                    with_field(
                        f,
                        "outbounds"@,
                        Tree::List(outbounds.update(i, switched(outbounds[i]->Object_0, node))),
                    ),
                ),
            ),
            None => Err("未能在配置文件中定位到 tag 为 'proxy' 的代理出口 outbound 项"@),
        },
        _ => Err("配置文件中未找到 outbounds 字段"@),
    }
}

fn put_server_name(f: &mut Vec<(String, Json)>, server_name: &Option<String>)
    ensures
        fields(final(f)@) == with_server_name(
            fields(old(f)@),
            opt_view(*server_name),
        ),
{
    if server_name.is_some() && find_field(f, "tls").is_none() {
        let none: Vec<(String, Json)> = Vec::new();
        proof {
            lemma_object_tree(none);
            assert(fields(none@) =~= Seq::empty());
        }
        set_field(f, "tls", Json::Object(none));
    }
    let ghost g = fields(f@);
    if let Some(i) = find_field(f, "tls") {
        let (_, value) = f.remove(i);
        assert(g[i as int].1 == value.tree());
        let next = match value {
            Json::Object(tls) => {
                let mut inner = tls;
                proof {
                    lemma_object_tree(inner);
                }
                match server_name {
                    Some(name) => set_field(&mut inner, "server_name", Json::Text(name.clone())),
                    None => remove_field(&mut inner, "server_name"),
                }
                proof {
                    lemma_object_tree(inner);
                }
                Json::Object(inner)
            },
            other => other,
        };
        f.insert(i, ("tls".to_owned(), next));
        proof {
            lemma_position(g, "tls"@);
            assert(fields(f@) =~= g.update(i as int, ("tls"@, next.tree())));
            assert(g.update(i as int, ("tls"@, g[i as int].1)) =~= g);
        }
    }
}

fn put_server(f: &mut Vec<(String, Json)>, node: &NodeConfig)
    ensures
        fields(final(f)@) == with_server(fields(old(f)@), node.node()),
{
    set_field(f, "server", Json::Text(node.server.clone()));
    set_field(f, "server_port", Json::Number(JsonNumber::Unsigned(node.server_port as u64)));
    match &node.password {
        Some(p) => set_field(f, "password", Json::Text(p.clone())),
        None => remove_field(f, "password"),
    }
    put_server_name(f, &node.server_name);
}

fn switch_outbound(fields_of: Vec<(String, Json)>, node: &NodeConfig) -> (r: Json)
    requires
        field(fields(fields_of@), "type"@) == Some(Tree::Text("selector"@)) || match node.node().outbound {
            Some(template) => takes_tag(template),
            None => true,
        },
    ensures
        r.tree() == switched(fields(fields_of@), node.node()),
{
    let whole = Json::Object(fields_of);
    proof {
        lemma_object_tree(fields_of);
    }
    let selector = whole.text_is("type", "selector");
    let mut f = fields_of_object(whole);
    if selector {
        set_field(&mut f, "default", Json::Text(node.name.clone()));
    } else if let Some(template) = &node.outbound {
        let mut g: Vec<(String, Json)> = match template.duplicate() {
            Json::Object(g) => {
                proof {
                    lemma_object_tree(g);
                }
                g
            },
            _ => Vec::new(),
        };
        let ghost before = fields(g@);
        set_field(&mut g, "tag", Json::Text("proxy".to_owned()));
        proof {
            lemma_object_tree(g);
            if template.tree() is Null {
                assert(before =~= Seq::empty());
                assert(fields(g@) =~= seq![("tag"@, Tree::Text("proxy"@))]);
            }
        }
        return Json::Object(g);
    } else {
        put_server(&mut f, node);
    }
    proof {
        lemma_object_tree(f);
    }
    Json::Object(f)
}

/// The fields of an object.
fn fields_of_object(j: Json) -> (r: Vec<(String, Json)>)
    requires
        j is Object,
    ensures
        j.tree() == Tree::Object(fields(r@)),
{
    match j {
        Json::Object(f) => {
            proof {
                lemma_object_tree(f);
            }
            f
        },
        _ => Vec::new(),
    }
}

/// Whether a switch to the node can be carried out.
pub fn can_switch(config: &Json, node: &NodeConfig) -> (r: bool)
    ensures
        r == can_switch_to(config.tree(), node.node()),
{
    match config.list_at("outbounds") {
        None => true,
        Some(outbounds) => match find_tagged(outbounds, "proxy") {
            None => true,
            Some(i) => {
                assert(trees(outbounds@)[i as int] == outbounds@[i as int].tree());
                outbounds[i].text_is("type", "selector") || match &node.outbound {
                    Some(Json::Object(_)) | Some(Json::Null) | None => true,
                    _ => false,
                }
            },
        },
    }
}

/// The configuration after a switch to the node, or what is wrong with it.
pub fn switch_config(config: Json, node: &NodeConfig) -> (r: Result<Json, String>)
    requires
        can_switch_to(config.tree(), node.node()),
    ensures
        match r {
            Ok(j) => switched_config(config.tree(), node.node()) == Ok::<Tree, Seq<char>>(j.tree()),
            Err(e) => switched_config(config.tree(), node.node()) == Err::<Tree, Seq<char>>(e@),
        },
{
    let ghost whole = config.tree();
    if config.list_at("outbounds").is_none() {
        return Err("配置文件中未找到 outbounds 字段".to_owned());
    }
    let mut f = fields_of_object(config);
    let ghost before = fields(f@);
    match find_field(&f, "outbounds") {
        None => Err("配置文件中未找到 outbounds 字段".to_owned()),
        Some(i) => {
            let (_, value) = f.remove(i);
            assert(before[i as int].1 == value.tree());
            match value {
                Json::List(list) => {
                    let mut outbounds = list;
                    proof {
                        lemma_list_tree(outbounds);
                    }
                    let ghost all = trees(outbounds@);
                    match find_tagged(&outbounds, "proxy") {
                        None => Err(
                            "未能在配置文件中定位到 tag 为 'proxy' 的代理出口 outbound 项".to_owned(),
                        ),
                        Some(k) => {
                            let proxy = outbounds.remove(k);
                            proof {
                                lemma_tagged(all, "proxy"@);
                                assert(all[k as int] == proxy.tree());
                                assert(proxy is Object);
                            }
                            let own = fields_of_object(proxy);
                            let next = switch_outbound(own, node);
                            outbounds.insert(k, next);
                            proof {
                                assert(trees(outbounds@) =~= all.update(k as int, next.tree()));
                                lemma_list_tree(outbounds);
                            }
                            f.insert(i, ("outbounds".to_owned(), Json::List(outbounds)));
                            proof {
                                lemma_object_tree(f);
                                assert(fields(f@) =~= before.update(
                                    i as int,
                                    ("outbounds"@, Tree::List(trees(outbounds@))),
                                ));
                            }
                            Ok(Json::Object(f))
                        },
                    }
                },
                _ => Err("配置文件中未找到 outbounds 字段".to_owned()),
            }
        },
    }
}

/// A configuration whose outbound `proxy` was given the server of a node goes out through that
/// server, so that the node in use is found by its server and port.
pub proof fn switch_is_detected(config: Tree, node: Node, nodes: Seq<Node>)
    requires
        node.outbound is None,
        switched_config(config, node) is Ok,
        ({
            let outbounds = list_in(config, "outbounds"@)->0;
            let proxy = outbounds[tagged(outbounds, "proxy"@)->0];
            text_in(proxy, "type"@) != Some("selector"@)
        }),
    ensures
        active_node(Some(switched_config(config, node)->Ok_0), nodes) == name_of_server(
            nodes,
            node.server,
            node.port as int,
        ),
{
    let f = config->Object_0;
    let outbounds = list_in(config, "outbounds"@)->0;
    let i = tagged(outbounds, "proxy"@)->0;
    lemma_tagged(outbounds, "proxy"@);
    let own = outbounds[i]->Object_0;
    let next = switched(own, node);
    let after = outbounds.update(i, next);
    let whole = with_field(f, "outbounds"@, Tree::List(after));
    set_field_reads_back(f, "outbounds"@, Tree::List(after), "outbounds"@);
    assert(list_in(Tree::Object(whole), "outbounds"@) == Some(after));
    lemma_with_server_reads_back(own, node);
    lemma_tagged(after, "proxy"@);
    assert(forall|j: int| 0 <= j < i ==> after[j] == #[trigger] outbounds[j]);
    assert(after[i] == next);
    assert(tagged(after, "proxy"@) == Some(i)) by {
        assert(text_in(after[i], "tag"@) == Some("proxy"@));
        if let Some(k) = tagged(after, "proxy"@) {
            if k < i {
                assert(after[k] == outbounds[k]);
            }
        }
    }
}

proof fn lemma_with_server_reads_back(f: Seq<(Seq<char>, Tree)>, node: Node)
    ensures
        field(with_server(f, node), "server"@) == Some(Tree::Text(node.server)),
        field(with_server(f, node), "server_port"@) == Some(
            Tree::Number(JsonNumber::Unsigned(node.port as u64)),
        ),
        field(with_server(f, node), "tag"@) == field(f, "tag"@),
        field(with_server(f, node), "type"@) == field(f, "type"@),
{
    reveal_strlit("server");
    reveal_strlit("server_port");
    reveal_strlit("password");
    reveal_strlit("tls");
    reveal_strlit("tag");
    reveal_strlit("type");
    assert("tag"@[1] == 'a' && "tls"@[1] == 'l');
    assert("server"@.len() == 6 && "server_port"@.len() == 11 && "password"@.len() == 8
        && "tls"@.len() == 3 && "tag"@.len() == 3 && "type"@.len() == 4);
    let server = Tree::Text(node.server);
    let port = Tree::Number(JsonNumber::Unsigned(node.port as u64));
    let a = with_field(f, "server"@, server);
    let b = with_field(a, "server_port"@, port);
    lemma_others_stay(f, "server"@, server);
    lemma_others_stay(a, "server_port"@, port);
    let c = match node.password {
        Some(p) => with_field(b, "password"@, Tree::Text(p)),
        None => without_field(b, "password"@),
    };
    if let Some(p) = node.password {
        lemma_others_stay(b, "password"@, Tree::Text(p));
    } else {
        lemma_others_stay_without(b, "password"@);
    }
    let empty = Tree::Object(Seq::empty());
    lemma_others_stay(c, "tls"@, empty);
    let g = with_field(c, "tls"@, empty);
    let d = with_server_name(c, node.server_name);
    assert(d == with_server(f, node));
    if let Some(Tree::Object(tls)) = field(c, "tls"@) {
        if let Some(name) = node.server_name {
            let next = Tree::Object(with_field(tls, "server_name"@, Tree::Text(name)));
            lemma_others_stay(c, "tls"@, next);
        } else {
            let next = Tree::Object(without_field(tls, "server_name"@));
            lemma_others_stay(c, "tls"@, next);
        }
    } else if field(c, "tls"@) is None && node.server_name is Some {
        let name = node.server_name->0;
        let next = Tree::Object(
            with_field(Seq::empty(), "server_name"@, Tree::Text(name)),
        );
        lemma_others_stay(g, "tls"@, next);
    }
}

proof fn lemma_others_stay(f: Seq<(Seq<char>, Tree)>, key: Seq<char>, value: Tree)
    ensures
        field(with_field(f, key, value), key) == Some(value),
        forall|other: Seq<char>|
            other != key ==> #[trigger] field(with_field(f, key, value), other) == field(f, other),
{
    set_field_reads_back(f, key, value, key);
    assert forall|other: Seq<char>| other != key implies #[trigger] field(
        with_field(f, key, value),
        other,
    ) == field(f, other) by {
        set_field_reads_back(f, key, value, other);
    }
}

proof fn lemma_others_stay_without(f: Seq<(Seq<char>, Tree)>, key: Seq<char>)
    ensures
        forall|other: Seq<char>|
            other != key ==> #[trigger] field(without_field(f, key), other) == field(f, other),
{
    assert forall|other: Seq<char>| other != key implies #[trigger] field(
        without_field(f, key),
        other,
    ) == field(f, other) by {
        removed_field_is_gone(f, key, other);
    }
}

// ---------------------------------------------------------------------------
// What a switch changes
// ---------------------------------------------------------------------------

/// `i` is the index of the outbound that a switch is about: the first with the tag `proxy`.
pub open spec fn is_proxy_at(outbounds: Seq<Tree>, i: int) -> bool {
    &&& 0 <= i < outbounds.len()
    &&& text_in(outbounds[i], "tag"@) == Some("proxy"@)
    &&& forall|j: int| 0 <= j < i ==> text_in(#[trigger] outbounds[j], "tag"@) != Some("proxy"@)
}

/// A switch is made exactly where the configuration has a list of outbounds of which one has the
/// tag `proxy`; otherwise it says what is missing. It changes the first such outbound and nothing
/// else: neither another outbound nor another field of the configuration.
pub proof fn switch_changes_one_outbound(config: Tree, node: Node, i: int, key: Seq<char>)
    ensures
        list_in(config, "outbounds"@) is None ==> switched_config(config, node) == Err::<
            Tree,
            Seq<char>,
        >("配置文件中未找到 outbounds 字段"@),
        match list_in(config, "outbounds"@) {
            None => true,
            Some(outbounds) => {
                let after = switched_config(config, node)->Ok_0;
                &&& (forall|j: int|
                    0 <= j < outbounds.len() ==> text_in(#[trigger] outbounds[j], "tag"@) != Some(
                        "proxy"@,
                    )) ==> switched_config(config, node) == Err::<Tree, Seq<char>>(
                    "未能在配置文件中定位到 tag 为 'proxy' 的代理出口 outbound 项"@,
                )
                &&& is_proxy_at(outbounds, i) ==> {
                    &&& switched_config(config, node) is Ok
                    &&& list_in(after, "outbounds"@) is Some
                    &&& list_in(after, "outbounds"@)->0.len() == outbounds.len()
                    &&& forall|j: int|
                        0 <= j < outbounds.len() && j != i ==> list_in(after, "outbounds"@)->0[j]
                            == #[trigger] outbounds[j]
                    &&& key != "outbounds"@ ==> get(after, key) == get(config, key)
                }
            },
        },
{
    if let Some(outbounds) = list_in(config, "outbounds"@) {
        lemma_tagged(outbounds, "proxy"@);
        if is_proxy_at(outbounds, i) {
            lemma_switched_list(config, node, i);
            let next = outbounds.update(i, switched(outbounds[i]->Object_0, node));
            set_field_reads_back(config->Object_0, "outbounds"@, Tree::List(next), key);
        }
    }
}

/// The outbounds after a switch.
proof fn lemma_switched_list(config: Tree, node: Node, i: int)
    requires
        list_in(config, "outbounds"@) is Some,
        is_proxy_at(list_in(config, "outbounds"@)->0, i),
    ensures
        ({
            let outbounds = list_in(config, "outbounds"@)->0;
            &&& outbounds[i] is Object
            &&& switched_config(config, node) == Ok::<Tree, Seq<char>>(
                Tree::Object(
                    with_field(
                        config->Object_0,
                        "outbounds"@,
                        Tree::List(
                            outbounds.update(i, switched(outbounds[i]->Object_0, node)),
                        ),
                    ),
                ),
            )
            &&& list_in(switched_config(config, node)->Ok_0, "outbounds"@) == Some(
                outbounds.update(i, switched(outbounds[i]->Object_0, node)),
            )
        }),
{
    let outbounds = list_in(config, "outbounds"@)->0;
    lemma_tagged(outbounds, "proxy"@);
    let k = tagged(outbounds, "proxy"@)->0;
    assert(k == i) by {
        if k < i {
            assert(text_in(outbounds[k], "tag"@) != Some("proxy"@));
        }
        if i < k {
            assert(text_in(outbounds[i], "tag"@) != Some("proxy"@));
        }
    }
    let next = outbounds.update(i, switched(outbounds[i]->Object_0, node));
    set_field_reads_back(config->Object_0, "outbounds"@, Tree::List(next), "outbounds"@);
}

/// A selector takes the node as its default, whatever default it had, and keeps every other field.
pub proof fn selector_takes_the_node(config: Tree, node: Node, i: int, key: Seq<char>)
    requires
        list_in(config, "outbounds"@) is Some,
        is_proxy_at(list_in(config, "outbounds"@)->0, i),
        text_in(list_in(config, "outbounds"@)->0[i], "type"@) == Some("selector"@),
    ensures
        switched_config(config, node) is Ok,
        ({
            let before = list_in(config, "outbounds"@)->0[i];
            let after = list_in(switched_config(config, node)->Ok_0, "outbounds"@)->0[i];
            &&& text_in(after, "default"@) == Some(node.name)
            &&& key != "default"@ ==> get(after, key) == get(before, key)
        }),
{
    lemma_switched_list(config, node, i);
    let f = list_in(config, "outbounds"@)->0[i]->Object_0;
    set_field_reads_back(f, "default"@, Tree::Text(node.name), key);
}

/// After a switch of a selector the node in use is found again: where the first outbound with the
/// node's name as its tag goes to the node's server and port, the node in use is the first of the
/// nodes with that server and port.
pub proof fn selected_node_is_detected(
    config: Tree,
    node: Node,
    nodes: Seq<Node>,
    i: int,
    k: int,
    m: int,
)
    requires
        list_in(config, "outbounds"@) is Some,
        is_proxy_at(list_in(config, "outbounds"@)->0, i),
        ({
            let outbounds = list_in(config, "outbounds"@)->0;
            &&& text_in(outbounds[i], "type"@) == Some("selector"@)
            &&& 0 <= k < outbounds.len()
            &&& text_in(outbounds[k], "tag"@) == Some(node.name)
            &&& forall|j: int|
                0 <= j < k ==> text_in(#[trigger] outbounds[j], "tag"@) != Some(node.name)
            &&& goes_to(outbounds[k], node.server, node.port)
        }),
        0 <= m < nodes.len(),
        nodes[m] == node,
        forall|j: int|
            0 <= j < m ==> !((#[trigger] nodes[j]).server == node.server && nodes[j].port
                == node.port),
    ensures
        switched_config(config, node) is Ok,
        active_node(Some(switched_config(config, node)->Ok_0), nodes) == node.name,
{
    lemma_switched_list(config, node, i);
    let outbounds = list_in(config, "outbounds"@)->0;
    let own = outbounds[i]->Object_0;
    let next = switched(own, node);
    let after = outbounds.update(i, next);
    lemma_others_stay(own, "default"@, Tree::Text(node.name));
    reveal_strlit("default");
    reveal_strlit("tag");
    reveal_strlit("type");
    reveal_strlit("server");
    reveal_strlit("server_port");
    assert("default"@.len() == 7 && "tag"@.len() == 3 && "type"@.len() == 4 && "server"@.len() == 6
        && "server_port"@.len() == 11);
    assert forall|j: int| 0 <= j < outbounds.len() implies text_in(#[trigger] after[j], "tag"@)
        == text_in(outbounds[j], "tag"@) && text_in(after[j], "server"@) == text_in(
        outbounds[j],
        "server"@,
    ) && number_in(after[j], "server_port"@) == number_in(outbounds[j], "server_port"@) by {
        if j == i {
            assert(after[j] == next);
        }
    }
    lemma_first_tagged(after, "proxy"@, i);
    lemma_first_tagged(after, node.name, k);
    assert(used_outbound(after, i) == after[k]);
    assert(server_of(after[k]) =~= node.server);
    assert(port_of(after[k]) == node.port as int);
    lemma_first_node(nodes, node.server, node.port as int, m);
}

/// An index with the tag that has none before it is the one that is found.
proof fn lemma_first_tagged(outbounds: Seq<Tree>, tag: Seq<char>, i: int)
    requires
        0 <= i < outbounds.len(),
        text_in(outbounds[i], "tag"@) == Some(tag),
        forall|j: int| 0 <= j < i ==> text_in(#[trigger] outbounds[j], "tag"@) != Some(tag),
    ensures
        tagged(outbounds, tag) == Some(i),
{
    lemma_tagged(outbounds, tag);
    let k = tagged(outbounds, tag)->0;
    if k < i {
        assert(text_in(outbounds[k], "tag"@) != Some(tag));
    }
    if i < k {
        assert(text_in(outbounds[i], "tag"@) != Some(tag));
    }
}

/// A node with the server and port that has none before it is the one that is found.
proof fn lemma_first_node(nodes: Seq<Node>, server: Seq<char>, port: int, m: int)
    requires
        0 <= m < nodes.len(),
        nodes[m].server == server,
        nodes[m].port == port,
        forall|j: int|
            0 <= j < m ==> !((#[trigger] nodes[j]).server == server && nodes[j].port == port),
    ensures
        node_at(nodes, server, port) == Some(m),
{
    lemma_node_at(nodes, server, port);
    let k = node_at(nodes, server, port)->0;
    if k < m {
        assert(!(nodes[k].server == server && nodes[k].port == port));
    }
    if m < k {
        assert(!(nodes[m].server == server && nodes[m].port == port));
    }
}

/// Where the node gives a whole outbound, that one takes the place of the outbound `proxy`, which is
/// no selector: it has the tag `proxy`, and every other field of it is the node's.
pub proof fn template_takes_the_place(config: Tree, node: Node, i: int, key: Seq<char>)
    requires
        list_in(config, "outbounds"@) is Some,
        is_proxy_at(list_in(config, "outbounds"@)->0, i),
        text_in(list_in(config, "outbounds"@)->0[i], "type"@) != Some("selector"@),
        node.outbound matches Some(t) && (t is Object || t is Null),
    ensures
        switched_config(config, node) is Ok,
        ({
            let after = list_in(switched_config(config, node)->Ok_0, "outbounds"@)->0[i];
            &&& text_in(after, "tag"@) == Some("proxy"@)
            &&& key != "tag"@ ==> get(after, key) == get(node.outbound->0, key)
        }),
{
    lemma_switched_list(config, node, i);
    if let Some(Tree::Object(f)) = node.outbound {
        set_field_reads_back(f, "tag"@, Tree::Text("proxy"@), key);
    } else {
        let one = seq![("tag"@, Tree::Text("proxy"@))];
        lemma_position_is(one, "tag"@, 0);
        lemma_position(one, key);
    }
}

/// Where the node gives no whole outbound, the outbound `proxy`, which is no selector, goes to the
/// node's server and port with the node's password, and knows the other side by the node's server
/// name. What the node does not have is taken away; every other field stays, and every other field
/// of `tls` too.
pub proof fn server_takes_the_place(
    config: Tree,
    node: Node,
    i: int,
    key: Seq<char>,
    tls_key: Seq<char>,
)
    requires
        list_in(config, "outbounds"@) is Some,
        is_proxy_at(list_in(config, "outbounds"@)->0, i),
        text_in(list_in(config, "outbounds"@)->0[i], "type"@) != Some("selector"@),
        node.outbound is None,
    ensures
        switched_config(config, node) is Ok,
        ({
            let before = list_in(config, "outbounds"@)->0[i];
            let after = list_in(switched_config(config, node)->Ok_0, "outbounds"@)->0[i];
            &&& text_in(after, "server"@) == Some(node.server)
            &&& number_in(after, "server_port"@) == Some(node.port as u64)
            &&& node.password is Some ==> text_in(after, "password"@) == node.password
            &&& node.password is None && distinct_names(before->Object_0) ==> get(
                after,
                "password"@,
            ) is None
            &&& key != "server"@ && key != "server_port"@ && key != "password"@ && key != "tls"@
                ==> get(after, key) == get(before, key)
            &&& node.server_name is Some && (get(before, "tls"@) is None || get(
                before,
                "tls"@,
            )->0 is Object) ==> {
                &&& get(after, "tls"@) is Some
                &&& text_in(get(after, "tls"@)->0, "server_name"@) == node.server_name
                &&& tls_key != "server_name"@ ==> get(get(after, "tls"@)->0, tls_key) == match get(
                    before,
                    "tls"@,
                ) {
                    Some(tls) => get(tls, tls_key),
                    None => None,
                }
            }
            &&& node.server_name is None && get(before, "tls"@) is None ==> get(
                after,
                "tls"@,
            ) is None
            &&& node.server_name is None && get(before, "tls"@) is Some && get(
                before,
                "tls"@,
            )->0 is Object ==> {
                let tls = get(before, "tls"@)->0;
                &&& get(after, "tls"@) is Some
                &&& get(after, "tls"@)->0 is Object
                &&& distinct_names(tls->Object_0) ==> get(
                    get(after, "tls"@)->0,
                    "server_name"@,
                ) is None
                &&& tls_key != "server_name"@ ==> get(get(after, "tls"@)->0, tls_key) == get(
                    tls,
                    tls_key,
                )
            }
            &&& get(before, "tls"@) is Some && !(get(before, "tls"@)->0 is Object) ==> get(
                after,
                "tls"@,
            ) == get(before, "tls"@)
        }),
{
    lemma_switched_list(config, node, i);
    let before = list_in(config, "outbounds"@)->0[i];
    let f = before->Object_0;
    reveal_strlit("server");
    reveal_strlit("server_port");
    reveal_strlit("password");
    reveal_strlit("tls");
    assert("server"@.len() == 6 && "server_port"@.len() == 11 && "password"@.len() == 8
        && "tls"@.len() == 3);
    let server = Tree::Text(node.server);
    let port = Tree::Number(JsonNumber::Unsigned(node.port as u64));
    let a = with_field(f, "server"@, server);
    let b = with_field(a, "server_port"@, port);
    lemma_others_stay(f, "server"@, server);
    lemma_others_stay(a, "server_port"@, port);
    set_field_reads_back(f, "server"@, server, key);
    set_field_reads_back(a, "server_port"@, port, key);
    let c = match node.password {
        Some(p) => with_field(b, "password"@, Tree::Text(p)),
        None => without_field(b, "password"@),
    };
    if let Some(p) = node.password {
        lemma_others_stay(b, "password"@, Tree::Text(p));
    } else {
        lemma_others_stay_without(b, "password"@);
        removed_field_is_gone(b, "password"@, key);
    }
    let empty = Tree::Object(Seq::empty());
    lemma_others_stay(c, "tls"@, empty);
    let g = with_field(c, "tls"@, empty);
    let d = with_server_name(c, node.server_name);
    assert(d == with_server(f, node));
    if let Some(Tree::Object(tls)) = field(c, "tls"@) {
        if let Some(name) = node.server_name {
            let inner = with_field(tls, "server_name"@, Tree::Text(name));
            lemma_others_stay(c, "tls"@, Tree::Object(inner));
            set_field_reads_back(tls, "server_name"@, Tree::Text(name), tls_key);
        } else {
            let inner = without_field(tls, "server_name"@);
            lemma_others_stay(c, "tls"@, Tree::Object(inner));
            removed_field_is_gone(tls, "server_name"@, tls_key);
        }
    } else if field(c, "tls"@) is None && node.server_name is Some {
        let name = node.server_name->0;
        let none = Seq::<(Seq<char>, Tree)>::empty();
        let inner = with_field(none, "server_name"@, Tree::Text(name));
        lemma_others_stay(g, "tls"@, Tree::Object(inner));
        set_field_reads_back(none, "server_name"@, Tree::Text(name), tls_key);
    }
}

/// After a switch of an outbound that is no selector the node in use is found again: it is the first
/// of the nodes with the node's server and port.
pub proof fn switched_node_is_detected(config: Tree, node: Node, nodes: Seq<Node>, m: int)
    requires
        node.outbound is None,
        switched_config(config, node) is Ok,
        ({
            let outbounds = list_in(config, "outbounds"@)->0;
            let proxy = outbounds[tagged(outbounds, "proxy"@)->0];
            text_in(proxy, "type"@) != Some("selector"@)
        }),
        0 <= m < nodes.len(),
        nodes[m].server == node.server,
        nodes[m].port == node.port,
        forall|j: int|
            0 <= j < m ==> !((#[trigger] nodes[j]).server == node.server && nodes[j].port
                == node.port),
    ensures
        active_node(Some(switched_config(config, node)->Ok_0), nodes) == nodes[m].name,
{
    switch_is_detected(config, node, nodes);
    lemma_first_node(nodes, node.server, node.port as int, m);
}

/// The outbound `proxy` at `i` goes out through the one at `k`: a selector through the first with
/// the tag that it has as its default, if there is one; any other through itself.
pub open spec fn goes_through(outbounds: Seq<Tree>, i: int, k: int) -> bool {
    if text_in(outbounds[i], "type"@) == Some("selector"@) && text_in(
        outbounds[i],
        "default"@,
    ) is Some {
        let tag = text_in(outbounds[i], "default"@);
        ||| {
            &&& 0 <= k < outbounds.len()
            &&& text_in(outbounds[k], "tag"@) == tag
            &&& forall|j: int| 0 <= j < k ==> text_in(#[trigger] outbounds[j], "tag"@) != tag
        }
        ||| {
            &&& k == i
            &&& forall|j: int|
                0 <= j < outbounds.len() ==> text_in(#[trigger] outbounds[j], "tag"@) != tag
        }
    } else {
        k == i
    }
}

/// The outbound goes to the server and port: to no server where it names none, and to port zero
/// where it has none; of a number that is too large for a port the low 16 bits count.
pub open spec fn goes_to(outbound: Tree, server: Seq<char>, port: u16) -> bool {
    &&& match text_in(outbound, "server"@) {
        Some(s) => s == server,
        None => server.len() == 0,
    }
    &&& match number_in(outbound, "server_port"@) {
        Some(n) => n % 65536 == port,
        None => port == 0,
    }
}

/// The node in use by a configuration. It is unknown where no configuration could be read or it has
/// no outbounds, and not configured where no outbound has the tag `proxy`. The outbound in use is
/// the first with that tag, or the first with the tag that a selector has as its default. The node
/// is the first with the server and port of that outbound; where none has them, it is called by the
/// server and port, and is unknown where there is no server.
pub proof fn node_in_use_goes_by_its_server(
    config: Tree,
    nodes: Seq<Node>,
    i: int,
    k: int,
    server: Seq<char>,
    port: u16,
)
    ensures
        active_node(None, nodes) == "未知"@,
        list_in(config, "outbounds"@) is None ==> active_node(Some(config), nodes) == "未知"@,
        match list_in(config, "outbounds"@) {
            None => true,
            Some(outbounds) => {
                let name = active_node(Some(config), nodes);
                &&& (forall|j: int|
                    0 <= j < outbounds.len() ==> text_in(#[trigger] outbounds[j], "tag"@) != Some(
                        "proxy"@,
                    )) ==> name == "未配置"@
                &&& is_proxy_at(outbounds, i) && goes_through(outbounds, i, k) && goes_to(
                    outbounds[k],
                    server,
                    port,
                ) ==> {
                    &&& forall|m: int|
                        #![trigger nodes[m]]
                        0 <= m < nodes.len() && nodes[m].server == server && nodes[m].port == port
                            && (forall|j: int|
                            0 <= j < m ==> !((#[trigger] nodes[j]).server == server
                                && nodes[j].port == port)) ==> name == nodes[m].name
                    &&& (forall|m: int|
                        0 <= m < nodes.len() ==> !((#[trigger] nodes[m]).server == server
                            && nodes[m].port == port)) ==> name == if server.len() == 0 {
                        "未知"@
                    } else {
                        server + ":"@ + decimal(port as nat)
                    }
                }
            },
        },
{
    if let Some(outbounds) = list_in(config, "outbounds"@) {
        lemma_tagged(outbounds, "proxy"@);
        if is_proxy_at(outbounds, i) {
            lemma_first_tagged(outbounds, "proxy"@, i);
            if text_in(outbounds[i], "type"@) == Some("selector"@) && text_in(
                outbounds[i],
                "default"@,
            ) is Some {
                lemma_tagged(outbounds, text_in(outbounds[i], "default"@)->0);
            }
            lemma_node_at(nodes, server, port as int);
            if goes_to(outbounds[k], server, port) {
                assert(server_of(outbounds[k]) =~= server);
                assert(port_of(outbounds[k]) == port as int);
                assert(port as int as u16 == port);
                assert forall|m: int|
                    #![trigger nodes[m]]
                    0 <= m < nodes.len() && nodes[m].server == server && nodes[m].port == port && (
                    forall|j: int|
                        0 <= j < m ==> !((#[trigger] nodes[j]).server == server && nodes[j].port
                            == port)) implies node_at(nodes, server, port as int) == Some(m) by {
                    lemma_first_node(nodes, server, port as int, m);
                }
            }
        }
    }
}

// ---------------------------------------------------------------------------
// Control domains go direct
// ---------------------------------------------------------------------------

/// The texts as JSON values.
pub open spec fn text_trees(texts: Seq<Seq<char>>) -> Seq<Tree> {
    texts.map_values(|t: Seq<char>| Tree::Text(t))
}

/// The rule sends all of the domains direct.
pub open spec fn covers(rule: Tree, domains: Seq<Seq<char>>) -> bool {
    text_in(rule, "outbound"@) == Some("direct"@) && match list_in(rule, "domain_suffix"@) {
        Some(suffixes) => forall|i: int|
            0 <= i < domains.len() ==> suffixes.contains(Tree::Text(#[trigger] domains[i])),
        None => false,
    }
}

/// One of the rules sends all of the domains direct.
pub open spec fn any_covers(rules: Seq<Tree>, domains: Seq<Seq<char>>) -> bool {
    exists|i: int| 0 <= i < rules.len() && covers(#[trigger] rules[i], domains)
}

/// The rule that sends the domains direct.
pub open spec fn direct_rule(domains: Seq<Seq<char>>) -> Tree {
    Tree::Object(
        seq![
            ("domain_suffix"@, Tree::List(text_trees(domains))),
            ("outbound"@, Tree::Text("direct"@)),
        ],
    )
}

/// The rules of a configuration, where it has some.
pub open spec fn rules_of(config: Tree) -> Option<Seq<Tree>> {
    match get(config, "route"@) {
        Some(route) => list_in(route, "rules"@),
        None => None,
    }
}

/// The configuration lacks a rule that sends the domains direct, and has a place for one.
pub open spec fn lacks_rule(config: Tree, domains: Seq<Seq<char>>) -> bool {
    domains.len() > 0 && match rules_of(config) {
        Some(rules) => !any_covers(rules, domains),
        None => false,
    }
}

/// The configuration with the given rules.
pub open spec fn with_rules(config: Tree, rules: Seq<Tree>) -> Tree {
    let f = config->Object_0;
    let route = field(f, "route"@)->0;
    Tree::Object(
        with_field(
            f,
            "route"@,
            Tree::Object(with_field(route->Object_0, "rules"@, Tree::List(rules))),
        ),
    )
}

/// The configuration in which the domains go direct: where it lacks the rule, the rule comes in
/// before all others.
pub open spec fn with_bypass(config: Tree, domains: Seq<Seq<char>>) -> Tree {
    if lacks_rule(config, domains) {
        with_rules(config, seq![direct_rule(domains)] + rules_of(config)->0)
    } else {
        config
    }
}

fn holds_text(list: &Vec<Json>, text: &str) -> (r: bool)
    ensures
        r == trees(list@).contains(Tree::Text(text@)),
{
    for i in 0..list.len()
        invariant
            forall|j: int| 0 <= j < i ==> #[trigger] trees(list@)[j] != Tree::Text(text@),
    {
        assert(trees(list@)[i as int] == list@[i as int].tree());
        if let Json::Text(s) = &list[i] {
            if same_text(s.as_str(), text) {
                assert(trees(list@)[i as int] == Tree::Text(text@));
                return true;
            }
        }
    }
    false
}

fn rule_covers(rule: &Json, domains: &Vec<String>) -> (r: bool)
    ensures
        r == covers(rule.tree(), views(domains@)),
{
    if !rule.text_is("outbound", "direct") {
        return false;
    }
    match rule.list_at("domain_suffix") {
        None => false,
        Some(suffixes) => {
            let ghost all = views(domains@);
            for i in 0..domains.len()
                invariant
                    all == views(domains@),
                    list_in(rule.tree(), "domain_suffix"@) == Some(trees(suffixes@)),
                    forall|j: int|
                        0 <= j < i ==> trees(suffixes@).contains(Tree::Text(#[trigger] all[j])),
            {
                assert(all[i as int] == domains@[i as int]@);
                if !holds_text(suffixes, domains[i].as_str()) {
                    return false;
                }
            }
            true
        },
    }
}

fn needs_rule(config: &Json, domains: &Vec<String>) -> (r: bool)
    ensures
        r == lacks_rule(config.tree(), views(domains@)),
{
    if domains.len() == 0 {
        return false;
    }
    let rules = match config.get("route") {
        None => {
            return false;
        },
        Some(route) => match route.list_at("rules") {
            None => {
                return false;
            },
            Some(r) => r,
        },
    };
    let ghost all = trees(rules@);
    let ghost texts = views(domains@);
    for i in 0..rules.len()
        invariant
            all == trees(rules@),
            texts == views(domains@),
            rules_of(config.tree()) == Some(all),
            forall|j: int| 0 <= j < i ==> !covers(#[trigger] all[j], texts),
    {
        assert(all[i as int] == rules@[i as int].tree());
        if rule_covers(&rules[i], domains) {
            assert(any_covers(all, texts));
            return false;
        }
    }
    true
}

fn make_direct_rule(domains: &Vec<String>) -> (r: Json)
    ensures
        r.tree() == direct_rule(views(domains@)),
{
    let mut list: Vec<Json> = Vec::new();
    for i in 0..domains.len()
        invariant
            list@.len() == i,
            forall|j: int| 0 <= j < i ==> (#[trigger] list@[j]).tree() == Tree::Text(domains@[j]@),
    {
        list.push(Json::Text(domains[i].clone()));
    }
    let mut f: Vec<(String, Json)> = Vec::new();
    proof {
        lemma_list_tree(list);
        assert(trees(list@) =~= text_trees(views(domains@)));
    }
    f.push(("domain_suffix".to_owned(), Json::List(list)));
    f.push(("outbound".to_owned(), Json::Text("direct".to_owned())));
    proof {
        lemma_object_tree(f);
        assert(fields(f@) =~= direct_rule(views(domains@))->Object_0);
    }
    Json::Object(f)
}

/// Sees to it that the control domains go direct, and says whether the configuration was changed
/// for that.
pub fn ensure_control_domain_bypass(json_val: &mut Json, control_domains: &Vec<String>) -> (r: bool)
    ensures
        r == lacks_rule(old(json_val).tree(), views(control_domains@)),
        final(json_val).tree() == with_bypass(old(json_val).tree(), views(control_domains@)),
{
    if !needs_rule(json_val, control_domains) {
        return false;
    }
    let ghost before = json_val.tree();
    let mut whole = Json::Null;
    std::mem::swap(&mut whole, json_val);
    let mut f = fields_of_object(whole);
    let ghost f0 = fields(f@);
    if let Some(i) = find_field(&f, "route") {
        let (_, route) = f.remove(i);
        assert(f0[i as int].1 == route.tree());
        let mut inner = fields_of_object(route);
        let ghost r0 = fields(inner@);
        if let Some(k) = find_field(&inner, "rules") {
            let (_, value) = inner.remove(k);
            assert(r0[k as int].1 == value.tree());
            if let Json::List(list) = value {
                let mut rules = list;
                proof {
                    lemma_list_tree(rules);
                }
                let ghost l0 = trees(rules@);
                let rule = make_direct_rule(control_domains);
                let ghost added = rule.tree();
                rules.insert(0, rule);
                proof {
                    assert(trees(rules@) =~= seq![added] + l0);
                    lemma_list_tree(rules);
                }
                inner.insert(k, ("rules".to_owned(), Json::List(rules)));
                proof {
                    assert(fields(inner@) =~= r0.update(
                        k as int,
                        ("rules"@, Tree::List(seq![added] + l0)),
                    ));
                    lemma_object_tree(inner);
                }
            }
        }
        f.insert(i, ("route".to_owned(), Json::Object(inner)));
        proof {
            assert(fields(f@) =~= f0.update(i as int, ("route"@, Json::Object(inner).tree())));
            lemma_object_tree(f);
        }
    }
    *json_val = Json::Object(f);
    true
}

/// Seeing to it twice is the same as once: after the first time the configuration has the rule,
/// unless it has no place for one.
pub proof fn bypass_is_stable(config: Tree, domains: Seq<Seq<char>>)
    ensures
        !lacks_rule(with_bypass(config, domains), domains),
        with_bypass(with_bypass(config, domains), domains) == with_bypass(config, domains),
        domains.len() > 0 && rules_of(config) is Some ==> any_covers(
            rules_of(with_bypass(config, domains))->0,
            domains,
        ),
{
    if lacks_rule(config, domains) {
        let rules = rules_of(config)->0;
        let more = seq![direct_rule(domains)] + rules;
        let after = with_bypass(config, domains);
        lemma_rules_read_back(config, more);
        assert(more[0] == direct_rule(domains));
        lemma_direct_rule_covers(domains);
        assert(covers(more[0], domains));
    }
}

/// Where the configuration has rules and none of them already sends all of the domains direct, one
/// that does comes in before the others, and the configuration is otherwise unchanged: neither the
/// other rules nor any other field of the route or of the configuration changes. In all other cases
/// nothing changes at all.
pub proof fn bypass_comes_first(
    config: Tree,
    domains: Seq<Seq<char>>,
    key: Seq<char>,
    route_key: Seq<char>,
)
    ensures
        ({
            let after = with_bypass(config, domains);
            let route = get(config, "route"@);
            let lacks = domains.len() > 0 && route is Some && list_in(route->0, "rules"@) is Some && (
            forall|i: int|
                0 <= i < list_in(route->0, "rules"@)->0.len() ==> !sends_direct(
                    #[trigger] list_in(route->0, "rules"@)->0[i],
                    domains,
                ));
            &&& lacks == lacks_rule(config, domains)
            &&& !lacks ==> after == config
            &&& lacks ==> {
                let rules = list_in(route->0, "rules"@)->0;
                &&& get(after, "route"@) is Some
                &&& list_in(get(after, "route"@)->0, "rules"@) is Some
                &&& list_in(get(after, "route"@)->0, "rules"@)->0.len() == rules.len() + 1
                &&& list_in(get(after, "route"@)->0, "rules"@)->0.skip(1) == rules
                &&& sends_direct(list_in(get(after, "route"@)->0, "rules"@)->0[0], domains)
                &&& list_in(
                    list_in(get(after, "route"@)->0, "rules"@)->0[0],
                    "domain_suffix"@,
                )->0.len() == domains.len()
                &&& key != "route"@ ==> get(after, key) == get(config, key)
                &&& route_key != "rules"@ ==> get(get(after, "route"@)->0, route_key) == get(
                    route->0,
                    route_key,
                )
            }
        }),
{
    let route = get(config, "route"@);
    if route is Some && list_in(route->0, "rules"@) is Some {
        let rules = list_in(route->0, "rules"@)->0;
        assert(rules_of(config) == Some(rules));
        assert forall|i: int| 0 <= i < rules.len() implies sends_direct(#[trigger] rules[i], domains)
            == covers(rules[i], domains) by {}
        if lacks_rule(config, domains) {
            let next = seq![direct_rule(domains)] + rules;
            lemma_rules_read_back(config, next);
            lemma_direct_rule_covers(domains);
            let f = config->Object_0;
            let r = route->0->Object_0;
            let inner = with_field(r, "rules"@, Tree::List(next));
            set_field_reads_back(r, "rules"@, Tree::List(next), route_key);
            set_field_reads_back(f, "route"@, Tree::Object(inner), key);
            assert(get(with_rules(config, next), "route"@) == Some(Tree::Object(inner)));
            assert(next.skip(1) =~= rules);
            assert(next[0] == direct_rule(domains));
            let d = direct_rule(domains)->Object_0;
            lemma_position_is(d, "domain_suffix"@, 0);
        }
    }
}

/// The rule goes out by `direct` and every one of the domains is among its suffixes.
pub open spec fn sends_direct(rule: Tree, domains: Seq<Seq<char>>) -> bool {
    &&& text_in(rule, "outbound"@) == Some("direct"@)
    &&& list_in(rule, "domain_suffix"@) is Some
    &&& forall|i: int|
        0 <= i < domains.len() ==> list_in(rule, "domain_suffix"@)->0.contains(
            Tree::Text(#[trigger] domains[i]),
        )
}

proof fn lemma_rules_read_back(config: Tree, rules: Seq<Tree>)
    requires
        rules_of(config) is Some,
    ensures
        rules_of(with_rules(config, rules)) == Some(rules),
{
    let f = config->Object_0;
    let route = field(f, "route"@)->0;
    let inner = with_field(route->Object_0, "rules"@, Tree::List(rules));
    set_field_reads_back(route->Object_0, "rules"@, Tree::List(rules), "rules"@);
    set_field_reads_back(f, "route"@, Tree::Object(inner), "route"@);
}

proof fn lemma_direct_rule_covers(domains: Seq<Seq<char>>)
    ensures
        covers(direct_rule(domains), domains),
{
    reveal_strlit("domain_suffix");
    reveal_strlit("outbound");
    let f = direct_rule(domains)->Object_0;
    let list = text_trees(domains);
    assert("domain_suffix"@.len() == 13 && "outbound"@.len() == 8);
    lemma_position_is(f, "domain_suffix"@, 0);
    lemma_position_is(f, "outbound"@, 1);
    assert forall|i: int| 0 <= i < domains.len() implies list.contains(
        Tree::Text(#[trigger] domains[i]),
    ) by {
        assert(list[i] == Tree::Text(domains[i]));
    }
}

// ---------------------------------------------------------------------------
// A whole switch
// ---------------------------------------------------------------------------

/// The configuration after a switch to the node with the given name, in which the control domains
/// go direct; or what stands against it.
pub open spec fn switch_result(
    nodes: Seq<Node>,
    name: Seq<char>,
    config: Tree,
    domains: Seq<Seq<char>>,
) -> Result<Tree, Seq<char>> {
    match node_index(nodes, name) {
        None => Err("本地节点池中未找到名为 '"@ + name + "' 的节点"@),
        Some(i) => match switched_config(config, nodes[i]) {
            Ok(t) => Ok(with_bypass(t, domains)),
            Err(e) => Err(e),
        },
    }
}

/// The configuration after a switch to the node with the given name, in which the control domains
/// go direct; or what stands against it.
pub fn switch_local_node(
    nodes: &Vec<NodeConfig>,
    node_name: &str,
    config: Json,
    control_domains: &Vec<String>,
) -> (r: Result<Json, String>)
    requires
        match node_index(nodes_of(nodes@), node_name@) {
            Some(i) => can_switch_to(config.tree(), nodes_of(nodes@)[i]),
            None => true,
        },
    ensures
        match r {
            Ok(j) => switch_result(
                nodes_of(nodes@),
                node_name@,
                config.tree(),
                views(control_domains@),
            ) == Ok::<Tree, Seq<char>>(j.tree()),
            Err(e) => switch_result(
                nodes_of(nodes@),
                node_name@,
                config.tree(),
                views(control_domains@),
            ) == Err::<Tree, Seq<char>>(e@),
        },
{
    match find_node(nodes, node_name) {
        None => Err("本地节点池中未找到名为 '".to_owned().concat(node_name).concat("' 的节点")),
        Some(i) => {
            assert(nodes_of(nodes@)[i as int] == nodes@[i as int].node());
            match switch_config(config, &nodes[i]) {
                Err(e) => Err(e),
                Ok(next) => {
                    let mut out = next;
                    ensure_control_domain_bypass(&mut out, control_domains);
                    Ok(out)
                },
            }
        },
    }
}

/// What is said after a switch that was carried out.
pub fn switch_message(node_name: &str) -> (r: String)
    ensures
        r@ == "成功切换到节点 '"@ + node_name@ + "'，配置校验通过，代理服务重启中！"@,
{
    "成功切换到节点 '".to_owned().concat(node_name).concat("'，配置校验通过，代理服务重启中！")
}

/// A whole switch goes to the first node with the given name, and says so where there is none. It
/// fails as the change of the outbounds fails; where that succeeds it leaves the outbounds as
/// changed, and the control domains go direct wherever the configuration has rules.
pub proof fn switch_goes_to_the_named_node(
    nodes: Seq<Node>,
    name: Seq<char>,
    config: Tree,
    domains: Seq<Seq<char>>,
    i: int,
)
    ensures
        (forall|j: int| 0 <= j < nodes.len() ==> (#[trigger] nodes[j]).name != name)
            ==> switch_result(nodes, name, config, domains) == Err::<Tree, Seq<char>>(
            "本地节点池中未找到名为 '"@ + name + "' 的节点"@,
        ),
        0 <= i < nodes.len() && nodes[i].name == name && (forall|j: int|
            0 <= j < i ==> (#[trigger] nodes[j]).name != name) ==> match switched_config(
            config,
            nodes[i],
        ) {
            Err(e) => switch_result(nodes, name, config, domains) == Err::<Tree, Seq<char>>(e),
            Ok(t) => {
                let r = switch_result(nodes, name, config, domains);
                &&& r is Ok
                &&& list_in(r->Ok_0, "outbounds"@) == list_in(t, "outbounds"@)
                &&& domains.len() > 0 && get(t, "route"@) is Some && list_in(
                    get(t, "route"@)->0,
                    "rules"@,
                ) is Some ==> exists|k: int|
                    0 <= k < list_in(get(r->Ok_0, "route"@)->0, "rules"@)->0.len() && sends_direct(
                        #[trigger] list_in(get(r->Ok_0, "route"@)->0, "rules"@)->0[k],
                        domains,
                    )
            },
        },
{
    lemma_node_index(nodes, name);
    if 0 <= i < nodes.len() && nodes[i].name == name && (forall|j: int|
        0 <= j < i ==> (#[trigger] nodes[j]).name != name) {
        let k = node_index(nodes, name)->0;
        assert(k == i) by {
            if k < i {
                assert(nodes[k].name != name);
            }
            if i < k {
                assert(nodes[i].name != name);
            }
        }
        if let Ok(t) = switched_config(config, nodes[i]) {
            reveal_strlit("outbounds");
            reveal_strlit("route");
            assert("outbounds"@.len() != "route"@.len());
            bypass_comes_first(t, domains, "outbounds"@, "rules"@);
        }
    }
}

/// A switch is held back only where the outbound `proxy` is no selector and the node gives a whole
/// outbound that can bear no tag: neither an object nor nothing.
pub proof fn only_odd_templates_hold_a_switch_back(config: Tree, node: Node, i: int)
    ensures
        list_in(config, "outbounds"@) is None ==> can_switch_to(config, node),
        node.outbound is None ==> can_switch_to(config, node),
        node.outbound is Some && (node.outbound->0 is Object || node.outbound->0 is Null)
            ==> can_switch_to(config, node),
        match list_in(config, "outbounds"@) {
            None => true,
            Some(outbounds) => {
                &&& (forall|j: int|
                    0 <= j < outbounds.len() ==> text_in(#[trigger] outbounds[j], "tag"@) != Some(
                        "proxy"@,
                    )) ==> can_switch_to(config, node)
                &&& is_proxy_at(outbounds, i) ==> {
                    &&& text_in(outbounds[i], "type"@) == Some("selector"@) ==> can_switch_to(
                        config,
                        node,
                    )
                    &&& text_in(outbounds[i], "type"@) != Some("selector"@) && node.outbound is Some
                        && !(node.outbound->0 is Object) && !(node.outbound->0 is Null)
                        ==> !can_switch_to(config, node)
                }
            },
        },
{
    if let Some(outbounds) = list_in(config, "outbounds"@) {
        lemma_tagged(outbounds, "proxy"@);
        if is_proxy_at(outbounds, i) {
            lemma_first_tagged(outbounds, "proxy"@, i);
        }
    }
}

} // verus!
